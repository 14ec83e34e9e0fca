//! Decompiler core for the bytecode of a stack-based scripting virtual
//! machine: it reconstructs a structured statement/expression tree for one
//! compiled function from its instruction stream.
//!
//! The pipeline resolves byte offsets to instruction indices, builds an
//! instruction-level control-flow graph by breadth-first traversal from the
//! function's entry point, partitions it into basic blocks, and collapses the
//! block graph into statement trees with pattern-matching resolvers; the one
//! resolver provided simulates the operand stack of a straight-line block.

use vstd::prelude::*;

pub mod ast;
pub mod bytecode;
pub mod cfg;
pub mod error;
pub mod names;
pub mod resolver;

verus! {

use crate::bytecode::{Code, Instruction, spec_size};
use crate::cfg::{ControlFlowGraph, NodeRef};
use crate::error::{DecompileError, OffsetError, Stage};
use crate::names::NameTables;

/// Total encoded size, in bytes, of the first `i` instructions of a stream.
pub open spec fn prefix_size(s: Seq<Instruction>, i: int) -> int
    decreases i,
{
    if i <= 0 {
        0
    } else {
        prefix_size(s, i - 1) + spec_size(s[i - 1])
    }
}

/// Total encoded size of a stream, in bytes.
pub open spec fn total_size(s: Seq<Instruction>) -> int {
    prefix_size(s, s.len() as int)
}

/// Whether a byte offset falls on an instruction boundary.  The end of the
/// stream counts as a boundary.
pub open spec fn is_boundary(s: Seq<Instruction>, off: int) -> bool {
    exists|i: int| 0 <= i <= s.len() && prefix_size(s, i) == off
}

/// Every instruction occupies between 4 and 12 encoded bytes.
pub proof fn lemma_size_bounds(instr: Instruction)
    ensures
        4 <= spec_size(instr) <= 12,
{
}

/// Prefix sizes grow by at least 4 bytes per instruction.
pub proof fn lemma_prefix_size_mono(s: Seq<Instruction>, i: int, j: int)
    requires
        0 <= i <= j <= s.len(),
    ensures
        prefix_size(s, i) + 4 * (j - i) <= prefix_size(s, j),
    decreases j - i,
{
    if i < j {
        lemma_prefix_size_mono(s, i, j - 1);
        lemma_size_bounds(s[j - 1]);
    }
}

/// A byte offset reaches at most one instruction boundary.
pub proof fn lemma_boundary_unique(s: Seq<Instruction>, i: int, j: int)
    requires
        0 <= i <= s.len(),
        0 <= j <= s.len(),
        prefix_size(s, i) == prefix_size(s, j),
    ensures
        i == j,
{
    if i < j {
        lemma_prefix_size_mono(s, i, j);
    }
    if j < i {
        lemma_prefix_size_mono(s, j, i);
    }
}

/// The prefix sizes of a sub-stream are the whole stream's prefix sizes
/// shifted by the prefix size at the sub-stream's start.
pub proof fn lemma_prefix_size_subrange(s: Seq<Instruction>, a: int, b: int, k: int)
    requires
        0 <= a <= b <= s.len(),
        0 <= k <= b - a,
    ensures
        prefix_size(s.subrange(a, b), k) == prefix_size(s, a + k) - prefix_size(s, a),
    decreases k,
{
    if k > 0 {
        lemma_prefix_size_subrange(s, a, b, k - 1);
        assert(s.subrange(a, b)[k - 1] == s[a + k - 1]);
    }
}

/// Resolving the offset equal to a stream's total encoded byte length
/// yields the index one past the last instruction, and any larger offset
/// reaches no boundary at all: together with the contract of
/// [`get_index_from_bytes`], the total length resolves to `Ok` of the
/// stream's length and anything larger to the out-of-range error.
pub proof fn lemma_total_size_boundary(s: Seq<Instruction>, off: int)
    ensures
        is_boundary(s, total_size(s)),
        forall|i: int| 0 <= i <= s.len() && prefix_size(s, i) == total_size(s) ==> i == s.len(),
        off > total_size(s) ==> !is_boundary(s, off),
{
    assert(prefix_size(s, s.len() as int) == total_size(s));
    assert forall|i: int|
        0 <= i <= s.len() && prefix_size(s, i) == total_size(s) implies i == s.len() by {
        lemma_boundary_unique(s, i, s.len() as int);
    }
    if off > total_size(s) {
        assert forall|i: int| 0 <= i <= s.len() implies prefix_size(s, i) != off by {
            lemma_prefix_size_mono(s, i, s.len() as int);
        }
    }
}

/// Exact description of resolving an absolute byte offset against a stream:
/// the unique boundary index on success; past the end, the range error
/// carrying the stream's total length; inside an instruction, the
/// misalignment error carrying the first boundary past the target.
pub open spec fn byte_to_index_outcome(
    s: Seq<Instruction>,
    off: int,
    r: Result<usize, OffsetError>,
) -> bool {
    match r {
        Ok(i) => 0 <= i <= s.len() && prefix_size(s, i as int) == off,
        Err(e) => match e {
            OffsetError::OutOfRange { byte_offset, byte_length } => {
                &&& byte_offset == off
                &&& byte_length == total_size(s)
                &&& off > total_size(s)
            },
            OffsetError::Misaligned { byte_offset, reached } => {
                &&& byte_offset == off
                &&& 0 <= off <= total_size(s)
                &&& !is_boundary(s, off)
                &&& is_boundary(s, reached as int)
                &&& off < reached
                &&& forall|j: int|
                    0 <= j <= s.len() && off < prefix_size(s, j) ==> reached <= prefix_size(s, j)
            },
            _ => false,
        },
    }
}

/// Walks instructions from the start, accumulating each one's encoded byte
/// size, until the accumulated size equals `byte_index`; returns the
/// instruction index at that point.  Offset `0` trivially yields index `0`.
/// Fails with a range error if the walk runs past the end of the stream
/// before reaching the target, and with a misalignment error if it
/// overshoots the target without landing exactly on a boundary.
pub fn get_index_from_bytes(instructions: &[Instruction], byte_index: u32) -> (r: Result<
    usize,
    OffsetError,
>)
    requires
        total_size(instructions@) <= u32::MAX,
    ensures
        byte_to_index_outcome(instructions@, byte_index as int, r),
{
    if byte_index == 0 {
        return Ok(0);
    }
    let mut index: usize = 0;
    let mut offset: u32 = 0;
    while offset < byte_index
        invariant
            total_size(instructions@) <= u32::MAX,
            byte_index > 0,
            index <= instructions@.len(),
            offset == prefix_size(instructions@, index as int),
            index > 0 ==> prefix_size(instructions@, index as int - 1) < byte_index,
        decreases instructions@.len() - index,
    {
        if index >= instructions.len() {
            return Err(
                OffsetError::OutOfRange { byte_offset: byte_index as u64, byte_length: offset },
            );
        }
        proof {
            lemma_prefix_size_mono(instructions@, index as int + 1, instructions@.len() as int);
            lemma_size_bounds(instructions@[index as int]);
        }
        let sz = instructions[index].size();
        offset = offset + sz;
        index = index + 1;
    }
    if offset != byte_index {
        proof {
            let s = instructions@;
            assert(index > 0);
            assert forall|j: int| 0 <= j <= s.len() implies prefix_size(s, j) != byte_index by {
                if j <= index - 1 {
                    lemma_prefix_size_mono(s, j, index as int - 1);
                } else {
                    lemma_prefix_size_mono(s, index as int, j);
                }
            }
            assert forall|j: int|
                0 <= j <= s.len() && byte_index < prefix_size(s, j) implies offset <= prefix_size(
                s,
                j,
            ) by {
                if j <= index - 1 {
                    lemma_prefix_size_mono(s, j, index as int - 1);
                } else {
                    lemma_prefix_size_mono(s, index as int, j);
                }
            }
            lemma_prefix_size_mono(s, index as int, s.len() as int);
        }
        return Err(OffsetError::Misaligned { byte_offset: byte_index, reached: offset });
    }
    Ok(index)
}

/// Total encoded byte length of an instruction stream.
pub fn code_byte_length(instructions: &[Instruction]) -> (r: u32)
    requires
        total_size(instructions@) <= u32::MAX,
    ensures
        r == total_size(instructions@),
{
    let mut size: u32 = 0;
    let n = instructions.len();
    for index in 0..n
        invariant
            n == instructions@.len(),
            total_size(instructions@) <= u32::MAX,
            size == prefix_size(instructions@, index as int),
    {
        proof {
            lemma_prefix_size_mono(instructions@, index as int + 1, instructions@.len() as int);
            lemma_size_bounds(instructions@[index as int]);
        }
        size = size + instructions[index].size();
    }
    size
}

/// Converts a signed byte offset, relative to the instruction at `index`,
/// into an absolute instruction index.
///
/// Offset `0` is the identity.  A positive offset resolves forward through
/// the sub-stream starting at `index`; a negative offset is added to the
/// cumulative byte length of everything before `index` and resolved from
/// the start of the stream, failing if that position would be negative.
/// This two-tier scheme exists because jump targets are encoded as signed
/// byte deltas against a stream of variable-length instructions, so plain
/// index arithmetic would be incorrect.
pub fn get_index_from_byte_offset(instructions: &[Instruction], index: usize, offset: i32) -> (r:
    Result<usize, OffsetError>)
    requires
        index <= instructions@.len(),
        total_size(instructions@) <= u32::MAX,
    ensures
        offset == 0 ==> r == Ok::<usize, OffsetError>(index),
        offset > 0 ==> match r {
            Ok(j) => index <= j <= instructions@.len() && byte_to_index_outcome(
                instructions@.subrange(index as int, instructions@.len() as int),
                offset as int,
                Ok((j - index) as usize),
            ),
            Err(e) => byte_to_index_outcome(
                instructions@.subrange(index as int, instructions@.len() as int),
                offset as int,
                Err(e),
            ),
        },
        offset < 0 ==> {
            if prefix_size(instructions@, index as int) + offset < 0 {
                r == Err::<usize, OffsetError>(
                    OffsetError::Underflow {
                        base: prefix_size(instructions@, index as int) as u32,
                        offset: offset as i64,
                    },
                )
            } else {
                byte_to_index_outcome(
                    instructions@.subrange(0, index as int),
                    prefix_size(instructions@, index as int) + offset,
                    r,
                )
            }
        },
        r matches Ok(j) ==> j <= instructions@.len() && prefix_size(instructions@, j as int)
            == prefix_size(instructions@, index as int) + offset,
{
    proof {
        lemma_prefix_size_subrange(instructions@, 0, index as int, index as int);
        assert(instructions@.subrange(0, instructions@.len() as int) =~= instructions@);
        lemma_prefix_size_mono(instructions@, index as int, instructions@.len() as int);
        lemma_prefix_size_mono(instructions@, 0, index as int);
    }
    if offset == 0 {
        return Ok(index);
    }
    if offset < 0 {
        let before = &instructions[0..index];
        proof {
            lemma_prefix_size_subrange(instructions@, 0, index as int, index as int);
        }
        let base = code_byte_length(before);
        let pos_offset = match base.checked_add_signed(offset) {
            Some(v) => v,
            None => {
                return Err(OffsetError::Underflow { base, offset: offset as i64 });
            },
        };
        let r = get_index_from_bytes(before, pos_offset);
        proof {
            if let Ok(j) = r {
                lemma_prefix_size_subrange(instructions@, 0, index as int, j as int);
            }
        }
        r
    } else {
        let after = &instructions[index..instructions.len()];
        proof {
            lemma_prefix_size_subrange(
                instructions@,
                index as int,
                instructions@.len() as int,
                instructions@.len() - index as int,
            );
        }
        match get_index_from_bytes(after, offset as u32) {
            Ok(j) => {
                proof {
                    lemma_prefix_size_subrange(
                        instructions@,
                        index as int,
                        instructions@.len() as int,
                        j as int,
                    );
                }
                Ok(index + j)
            },
            Err(e) => Err(e),
        }
    }
}


/// Relative jump instructions: those that transfer control by a signed
/// word offset.
pub open spec fn has_jump(instr: Instruction) -> bool {
    match instr {
        Instruction::Branch { .. } => true,
        Instruction::BranchIf { .. } => true,
        Instruction::BranchUnless { .. } => true,
        Instruction::PushWithContext { .. } => true,
        Instruction::PopWithContext { .. } => true,
        _ => false,
    }
}

/// The signed word offset a jump instruction carries.
pub open spec fn jump_word_offset(instr: Instruction) -> int {
    match instr {
        Instruction::Branch { jump_offset } => jump_offset as int,
        Instruction::BranchIf { jump_offset } => jump_offset as int,
        Instruction::BranchUnless { jump_offset } => jump_offset as int,
        Instruction::PushWithContext { jump_offset } => jump_offset as int,
        Instruction::PopWithContext { jump_offset } => jump_offset as int,
        _ => 0,
    }
}

/// Whether execution can continue at the next sequential instruction.
/// An unconditional branch always jumps and a return or exit is terminal;
/// everything else falls through.
pub open spec fn has_fallthrough(instr: Instruction) -> bool {
    match instr {
        Instruction::Branch { .. } => false,
        Instruction::Return => false,
        Instruction::Exit => false,
        _ => true,
    }
}

/// The signed byte delta of the jump at instruction `a`.
pub open spec fn jump_delta(s: Seq<Instruction>, a: int) -> int {
    jump_word_offset(s[a]) * 4
}

/// Whether the jump at instruction `a` lands on an instruction boundary.
pub open spec fn jump_resolvable(s: Seq<Instruction>, a: int) -> bool {
    &&& prefix_size(s, a) + jump_delta(s, a) >= 0
    &&& is_boundary(s, prefix_size(s, a) + jump_delta(s, a))
}

/// The index of the boundary at a given byte offset (unique when it
/// exists, since instruction sizes are positive).
pub open spec fn boundary_index(s: Seq<Instruction>, off: int) -> int {
    choose|i: int| 0 <= i <= s.len() && prefix_size(s, i) == off
}

/// The instruction index the jump at `a` lands on.
pub open spec fn jump_target(s: Seq<Instruction>, a: int) -> int {
    boundary_index(s, prefix_size(s, a) + jump_delta(s, a))
}

/// Whether instruction `b` is a possible successor of instruction `a`:
/// a resolved jump target, or the next sequential instruction for anything
/// that falls through.  The index one past the stream's end is a possible
/// successor too; it simply ends that execution path.
pub open spec fn successor_ok(s: Seq<Instruction>, a: int, b: int) -> bool {
    &&& 0 <= a < s.len()
    &&& {
        ||| has_jump(s[a]) && jump_resolvable(s, a) && b == jump_target(s, a)
        ||| has_fallthrough(s[a]) && b == a + 1
    }
}

/// Whether consecutive entries of `p` are possible execution steps.
pub open spec fn path_ok(s: Seq<Instruction>, p: Seq<int>) -> bool {
    forall|k: int| 0 <= k < p.len() - 1 ==> successor_ok(s, #[trigger] p[k], p[k + 1])
}

/// Whether instruction index `n` can be reached from `start` by following
/// possible execution steps.
pub open spec fn reachable(s: Seq<Instruction>, start: int, n: int) -> bool {
    exists|p: Seq<int>| p.len() >= 1 && p[0] == start && p.last() == n && #[trigger] path_ok(s, p)
}

/// Reachability extends along any possible execution step.
pub proof fn lemma_reachable_step(s: Seq<Instruction>, start: int, a: int, b: int)
    requires
        reachable(s, start, a),
        successor_ok(s, a, b),
    ensures
        reachable(s, start, b),
{
    let p = choose|p: Seq<int>|
        p.len() >= 1 && p[0] == start && p.last() == a && #[trigger] path_ok(s, p);
    let q = p.push(b);
    assert(q.last() == b);
    assert forall|k: int| 0 <= k < q.len() - 1 implies successor_ok(s, #[trigger] q[k], q[k + 1]) by {
        if k < p.len() - 1 {
            assert(q[k] == p[k] && q[k + 1] == p[k + 1]);
        } else {
            assert(q[k] == p.last() && q[k + 1] == b);
        }
    }
    assert(path_ok(s, q));
}

/// Exact description of resolving a signed relative byte delta at
/// instruction `i` of a stream: the unique boundary index on success,
/// otherwise which failure, with the fields the walk reports.
pub open spec fn rel_jump_outcome(
    s: Seq<Instruction>,
    i: int,
    delta: int,
    r: Result<usize, OffsetError>,
) -> bool {
    let base = prefix_size(s, i);
    let target = base + delta;
    match r {
        Ok(j) => {
            &&& 0 <= j <= s.len()
            &&& prefix_size(s, j as int) == target
            &&& (delta >= 0 ==> j >= i)
            &&& (delta <= 0 ==> j <= i)
        },
        Err(e) => match e {
            OffsetError::OutOfRange { byte_offset, byte_length } => {
                &&& delta > 0
                &&& target > total_size(s)
                &&& byte_offset == delta
                &&& byte_length == total_size(s) - base
            },
            OffsetError::Misaligned { byte_offset, reached } => {
                &&& delta != 0
                &&& 0 <= target <= total_size(s)
                &&& !is_boundary(s, target)
                &&& byte_offset == if delta > 0 {
                    delta
                } else {
                    target
                }
                &&& {
                    let r_abs = if delta > 0 {
                        base + reached
                    } else {
                        reached as int
                    };
                    &&& is_boundary(s, r_abs)
                    &&& target < r_abs
                    &&& forall|j: int|
                        0 <= j <= s.len() && target < prefix_size(s, j) ==> r_abs <= prefix_size(
                            s,
                            j,
                        )
                }
            },
            OffsetError::Underflow { base: b, offset } => {
                &&& delta < 0
                &&& target < 0
                &&& b == base
                &&& offset == delta
            },
        },
    }
}

/// Resolves the signed word offset of a jump at instruction `index` to an
/// absolute instruction index, in bytes relative to that instruction.
pub fn resolve_jump(instructions: &[Instruction], index: usize, jump_offset: i32) -> (r: Result<
    usize,
    OffsetError,
>)
    requires
        index < instructions@.len(),
        total_size(instructions@) <= u32::MAX,
    ensures
        rel_jump_outcome(instructions@, index as int, jump_offset as int * 4, r),
{
    let ghost s = instructions@;
    let ghost delta = jump_offset as int * 4;
    proof {
        lemma_prefix_size_mono(s, 0, index as int);
        lemma_prefix_size_mono(s, index as int, s.len() as int);
    }
    if jump_offset == 0 {
        return Ok(index);
    }
    if jump_offset > 0 {
        let tail = &instructions[index..instructions.len()];
        proof {
            lemma_prefix_size_subrange(s, index as int, s.len() as int, s.len() - index as int);
        }
        let remaining = code_byte_length(tail);
        let delta64 = (jump_offset as u64) * 4;
        if delta64 > remaining as u64 {
            return Err(OffsetError::OutOfRange { byte_offset: delta64, byte_length: remaining });
        }
        let delta32 = delta64 as u32;
        match get_index_from_bytes(tail, delta32) {
            Ok(j) => {
                proof {
                    lemma_prefix_size_subrange(s, index as int, s.len() as int, j as int);
                }
                Ok(index + j)
            },
            Err(e) => {
                proof {
                    let target = prefix_size(s, index as int) + delta;
                    assert(e is Misaligned);
                    assert forall|j: int| 0 <= j <= s.len() implies prefix_size(s, j) != target by {
                        if j < index {
                            lemma_prefix_size_mono(s, j, index as int);
                        } else {
                            lemma_prefix_size_subrange(s, index as int, s.len() as int, j - index);
                        }
                    }
                    if let OffsetError::Misaligned { byte_offset, reached } = e {
                        let rel = choose|q: int|
                            0 <= q <= s.len() - index && prefix_size(
                                s.subrange(index as int, s.len() as int),
                                q,
                            ) == reached;
                        lemma_prefix_size_subrange(s, index as int, s.len() as int, rel);
                        assert(prefix_size(s, index + rel) == prefix_size(s, index as int)
                            + reached);
                        assert(is_boundary(s, prefix_size(s, index as int) + reached));
                        assert forall|j: int|
                            0 <= j <= s.len() && target < prefix_size(s, j) implies prefix_size(
                            s,
                            index as int,
                        ) + reached <= prefix_size(s, j) by {
                            if j < index {
                                lemma_prefix_size_mono(s, j, index as int);
                            } else {
                                lemma_prefix_size_subrange(
                                    s,
                                    index as int,
                                    s.len() as int,
                                    j - index,
                                );
                            }
                        }
                    }
                }
                Err(e)
            },
        }
    } else {
        let before = &instructions[0..index];
        proof {
            lemma_prefix_size_subrange(s, 0, index as int, index as int);
            assert(total_size(s.subrange(0, index as int)) == prefix_size(s, index as int));
        }
        let base = code_byte_length(before);
        let mag64 = ((-(jump_offset as i64)) as u64) * 4;
        if mag64 > base as u64 {
            return Err(OffsetError::Underflow { base, offset: (jump_offset as i64) * 4 });
        }
        let target32 = base - (mag64 as u32);
        match get_index_from_bytes(before, target32) {
            Ok(j) => {
                proof {
                    lemma_prefix_size_subrange(s, 0, index as int, j as int);
                }
                Ok(j)
            },
            Err(e) => {
                proof {
                    let target = prefix_size(s, index as int) + delta;
                    assert(e is Misaligned);
                    assert forall|j: int| 0 <= j <= s.len() implies prefix_size(s, j) != target by {
                        if j <= index {
                            lemma_prefix_size_subrange(s, 0, index as int, j);
                        } else {
                            lemma_prefix_size_mono(s, index as int, j);
                        }
                    }
                    if let OffsetError::Misaligned { byte_offset, reached } = e {
                        let rel = choose|q: int|
                            0 <= q <= index && prefix_size(s.subrange(0, index as int), q)
                                == reached;
                        lemma_prefix_size_subrange(s, 0, index as int, rel);
                        assert(is_boundary(s, reached as int));
                        assert forall|j: int|
                            0 <= j <= s.len() && target < prefix_size(s, j) implies reached as int
                            <= prefix_size(s, j) by {
                            if j <= index {
                                lemma_prefix_size_subrange(s, 0, index as int, j);
                            } else {
                                lemma_prefix_size_mono(s, index as int, j);
                            }
                        }
                    }
                }
                Err(e)
            },
        }
    }
}

/// Appends a queue pair `(cand, successor)` for every possible successor of
/// the instruction at `cand`, resolving its jump target if it has one.
fn enqueue_successors(
    queue: &mut Vec<(NodeRef, NodeRef)>,
    instructions: &[Instruction],
    cand: NodeRef,
) -> (r: Result<(), DecompileError>)
    requires
        cand.0 < instructions@.len(),
        total_size(instructions@) <= u32::MAX,
    ensures
        match r {
            Ok(_) => {
                &&& old(queue)@.len() <= final(queue)@.len() <= old(queue)@.len() + 2
                &&& final(queue)@.subrange(0, old(queue)@.len() as int) == old(queue)@
                &&& (has_jump(instructions@[cand.0 as int]) ==> jump_resolvable(
                    instructions@,
                    cand.0 as int,
                ))
                &&& forall|k: int|
                    #![trigger final(queue)@[k]]
                    old(queue)@.len() <= k < final(queue)@.len() ==> final(queue)@[k].0 == cand
                        && successor_ok(
                        instructions@,
                        cand.0 as int,
                        final(queue)@[k].1.0 as int,
                    )
                &&& forall|t: int|
                    #[trigger] successor_ok(instructions@, cand.0 as int, t) ==> exists|k: int|
                        #![trigger final(queue)@[k]]
                        old(queue)@.len() <= k < final(queue)@.len() && final(queue)@[k].1.0 == t
            },
            Err(e) => {
                &&& e matches DecompileError::Offset { stage, error }
                &&& e->Offset_stage == Stage::CfgConstruction
                &&& has_jump(instructions@[cand.0 as int])
                &&& rel_jump_outcome(
                    instructions@,
                    cand.0 as int,
                    jump_delta(instructions@, cand.0 as int),
                    Err(e->Offset_error),
                )
                &&& final(queue)@ == old(queue)@
            },
        },
{
    let ghost s = instructions@;
    let i = cand.0;
    let instr = &instructions[i];
    match instr {
        Instruction::Branch { jump_offset } => {
            let t = match resolve_jump(instructions, i, *jump_offset) {
                Ok(t) => t,
                Err(e) => {
                    return Err(DecompileError::Offset { stage: Stage::CfgConstruction, error: e });
                },
            };
            proof {
                assert(jump_delta(s, i as int) == *jump_offset as int * 4);
                assert(is_boundary(s, prefix_size(s, i as int) + jump_delta(s, i as int)));
                lemma_prefix_size_mono(s, 0, t as int);
                lemma_boundary_unique(s, jump_target(s, i as int), t as int);
                assert(jump_resolvable(s, i as int));
                assert(t as int == jump_target(s, i as int));
                assert(successor_ok(s, i as int, t as int));
            }
            let ghost prev = queue@;
            queue.push((cand, NodeRef(t)));
            proof {
                assert(queue@.subrange(0, prev.len() as int) =~= prev);
                assert forall|t2: int|
                    #[trigger] successor_ok(s, i as int, t2) implies exists|k: int|
                        prev.len() <= k < queue@.len() && (#[trigger] queue@[k]).1.0 == t2 by {
                    assert(t2 == jump_target(s, i as int));
                    assert(queue@[prev.len() as int].1.0 == t2);
                }
            }
            Ok(())
        },
        Instruction::BranchIf { jump_offset }
        | Instruction::BranchUnless { jump_offset }
        | Instruction::PushWithContext { jump_offset }
        | Instruction::PopWithContext { jump_offset } => {
            let t = match resolve_jump(instructions, i, *jump_offset) {
                Ok(t) => t,
                Err(e) => {
                    return Err(DecompileError::Offset { stage: Stage::CfgConstruction, error: e });
                },
            };
            proof {
                assert(jump_delta(s, i as int) == *jump_offset as int * 4);
                assert(is_boundary(s, prefix_size(s, i as int) + jump_delta(s, i as int)));
                lemma_prefix_size_mono(s, 0, t as int);
                lemma_boundary_unique(s, jump_target(s, i as int), t as int);
                assert(jump_resolvable(s, i as int));
                assert(t as int == jump_target(s, i as int));
                assert(successor_ok(s, i as int, t as int));
                assert(successor_ok(s, i as int, i as int + 1));
            }
            let ghost prev = queue@;
            queue.push((cand, NodeRef(t)));
            queue.push((cand, NodeRef(i + 1)));
            proof {
                assert(queue@.subrange(0, prev.len() as int) =~= prev);
                assert forall|t2: int|
                    #[trigger] successor_ok(s, i as int, t2) implies exists|k: int|
                        prev.len() <= k < queue@.len() && (#[trigger] queue@[k]).1.0 == t2 by {
                    if t2 == t as int {
                        assert(queue@[prev.len() as int].1.0 == t2);
                    } else {
                        assert(queue@[prev.len() as int + 1].1.0 == t2);
                    }
                }
            }
            Ok(())
        },
        Instruction::Return | Instruction::Exit => {
            proof {
                assert(queue@.subrange(0, queue@.len() as int) =~= queue@);
            }
            Ok(())
        },
        _ => {
            let ghost prev = queue@;
            queue.push((cand, NodeRef(i + 1)));
            proof {
                assert(queue@.subrange(0, prev.len() as int) =~= prev);
                assert forall|t2: int|
                    #[trigger] successor_ok(s, i as int, t2) implies exists|k: int|
                        prev.len() <= k < queue@.len() && (#[trigger] queue@[k]).1.0 == t2 by {
                    assert(queue@[prev.len() as int].1.0 == t2);
                }
            }
            Ok(())
        },
    }
}




/// Records a revisit edge: the candidate is already a member, so only the
/// `parent -> cand` edge is added.
fn record_revisit_edge(cfg: &mut ControlFlowGraph<()>, parent: NodeRef, cand: NodeRef)
    requires
        old(cfg).wf(),
        old(cfg).contains_spec(parent),
        old(cfg).contains_spec(cand),
    ensures
        final(cfg).wf(),
        forall|n: NodeRef| final(cfg).contains_spec(n) <==> old(cfg).contains_spec(n),
        final(cfg).spec_len() == old(cfg).spec_len(),
        final(cfg).root_spec() == old(cfg).root_spec(),
        final(cfg).spec_children(parent) == old(cfg).spec_children(parent).insert(cand),
        forall|a: NodeRef|
            a != parent && old(cfg).contains_spec(a) ==> final(cfg).spec_children(a) == old(
                cfg,
            ).spec_children(a),
{
    proof {
        cfg.lemma_member_nonempty(cand);
    }
    cfg.insert(parent, cand, ());
}

/// Records a newly reached node with its incoming edge (or as the root on
/// the first insertion, where the parent argument is ignored).
fn record_new_node(cfg: &mut ControlFlowGraph<()>, parent: NodeRef, cand: NodeRef)
    requires
        old(cfg).wf(),
        old(cfg).spec_len() == 0 || old(cfg).contains_spec(parent),
        !old(cfg).contains_spec(cand),
    ensures
        final(cfg).wf(),
        forall|n: NodeRef|
            final(cfg).contains_spec(n) <==> (old(cfg).contains_spec(n) || n == cand),
        final(cfg).spec_len() == old(cfg).spec_len() + 1,
        final(cfg).root_spec() == if old(cfg).spec_len() == 0 {
            Some(cand)
        } else {
            old(cfg).root_spec()
        },
        final(cfg).spec_children(cand) == Set::<NodeRef>::empty(),
        old(cfg).spec_len() > 0 ==> final(cfg).spec_children(parent) == old(cfg).spec_children(
            parent,
        ).insert(cand),
        forall|a: NodeRef|
            a != parent && a != cand && old(cfg).contains_spec(a) ==> final(cfg).spec_children(a)
                == old(cfg).spec_children(a),
{
    proof {
        if cfg.spec_len() == 0 {
            cfg.lemma_empty();
        }
    }
    cfg.insert(parent, cand, ());
    proof {
        assert(final(cfg).spec_children(cand) =~= Set::<NodeRef>::empty());
    }
}

/// Queue pairs stay valid when the graph only grows and freshly enqueued
/// pairs join a newly recorded member to its possible successors.
proof fn lemma_queue_pairs_extend(
    s: Seq<Instruction>,
    start: int,
    cfg0: ControlFlowGraph<()>,
    cfg: ControlFlowGraph<()>,
    queue0: Seq<(NodeRef, NodeRef)>,
    queue: Seq<(NodeRef, NodeRef)>,
    qhead0: int,
    cand: NodeRef,
)
    requires
        0 <= qhead0 < queue0.len(),
        queue.len() >= queue0.len(),
        queue.subrange(0, queue0.len() as int) == queue0,
        forall|a: NodeRef| #[trigger] cfg0.contains_spec(a) ==> cfg.contains_spec(a),
        cfg.contains_spec(cand),
        reachable(s, start, cand.0 as int),
        cfg0.spec_len() > 0 ==> forall|k: int|
            qhead0 <= k < queue0.len() ==> cfg0.contains_spec((#[trigger] queue0[k]).0)
                && successor_ok(s, queue0[k].0.0 as int, queue0[k].1.0 as int) && reachable(
                s,
                start,
                queue0[k].1.0 as int,
            ),
        cfg0.spec_len() == 0 ==> queue0.len() == qhead0 + 1,
        forall|k: int|
            queue0.len() <= k < queue.len() ==> (#[trigger] queue[k]).0 == cand && successor_ok(
                s,
                cand.0 as int,
                queue[k].1.0 as int,
            ),
    ensures
        forall|k: int|
            qhead0 + 1 <= k < queue.len() ==> cfg.contains_spec((#[trigger] queue[k]).0)
                && successor_ok(s, queue[k].0.0 as int, queue[k].1.0 as int) && reachable(
                s,
                start,
                queue[k].1.0 as int,
            ),
{
    assert forall|k: int|
        qhead0 + 1 <= k < queue.len() implies cfg.contains_spec((#[trigger] queue[k]).0)
            && successor_ok(s, queue[k].0.0 as int, queue[k].1.0 as int) && reachable(
            s,
            start,
            queue[k].1.0 as int,
        ) by {
        if k < queue0.len() {
            assert(queue[k] == queue0[k]);
            assert(cfg0.spec_len() > 0);
            assert(cfg0.contains_spec(queue0[k].0));
        } else {
            assert(queue[k].0 == cand);
            lemma_reachable_step(s, start, cand.0 as int, queue[k].1.0 as int);
        }
    }
}

/// When the head pair of the work queue is consumed, every pending
/// edge obligation either became a recorded edge, stays in the remaining
/// queue, or was freshly enqueued for a newly inserted node.
proof fn lemma_obligations_advance(
    s: Seq<Instruction>,
    cfg0: ControlFlowGraph<()>,
    cfg: ControlFlowGraph<()>,
    queue0: Seq<(NodeRef, NodeRef)>,
    queue: Seq<(NodeRef, NodeRef)>,
    qhead0: int,
)
    requires
        s.len() <= usize::MAX,
        0 <= qhead0 < queue0.len(),
        queue.len() >= queue0.len(),
        queue.subrange(0, queue0.len() as int) == queue0,
        forall|a: NodeRef| #[trigger] cfg0.contains_spec(a) ==> cfg.contains_spec(a),
        forall|a: NodeRef, b: NodeRef|
            cfg0.contains_spec(a) && #[trigger] cfg0.spec_children(a).contains(b)
                ==> cfg.spec_children(a).contains(b),
        forall|a: NodeRef, t: int|
            cfg0.contains_spec(a) && #[trigger] successor_ok(s, a.0 as int, t) && t < s.len() ==> (
            cfg0.contains_spec(NodeRef(t as usize)) && cfg0.spec_children(a).contains(
                NodeRef(t as usize),
            )) || exists|k: int|
                qhead0 <= k < queue0.len() && #[trigger] queue0[k] == (a, NodeRef(t as usize)),
        ({
            let pr = queue0[qhead0];
            (pr.1.0 < s.len() && cfg0.contains_spec(pr.0) && successor_ok(
                s,
                pr.0.0 as int,
                pr.1.0 as int,
            )) ==> cfg.contains_spec(pr.1) && cfg.spec_children(pr.0).contains(pr.1)
        }),
        forall|a: NodeRef, t: int|
            cfg.contains_spec(a) && !cfg0.contains_spec(a) && #[trigger] successor_ok(
                s,
                a.0 as int,
                t,
            ) ==> exists|k: int|
                queue0.len() <= k < queue.len() && (#[trigger] queue[k]).0 == a && queue[k].1.0
                    == t,
    ensures
        forall|a: NodeRef, t: int|
            cfg.contains_spec(a) && #[trigger] successor_ok(s, a.0 as int, t) && t < s.len() ==> (
            cfg.contains_spec(NodeRef(t as usize)) && cfg.spec_children(a).contains(
                NodeRef(t as usize),
            )) || exists|k: int|
                qhead0 + 1 <= k < queue.len() && #[trigger] queue[k] == (a, NodeRef(t as usize)),
{
    assert forall|a: NodeRef, t: int|
        cfg.contains_spec(a) && #[trigger] successor_ok(s, a.0 as int, t) && t < s.len() && !(
        cfg.contains_spec(NodeRef(t as usize)) && cfg.spec_children(a).contains(
            NodeRef(t as usize),
        )) implies exists|k: int|
        qhead0 + 1 <= k < queue.len() && #[trigger] queue[k] == (a, NodeRef(t as usize)) by {
        if cfg0.contains_spec(a) {
            assert(!(cfg0.contains_spec(NodeRef(t as usize)) && cfg0.spec_children(a).contains(
                NodeRef(t as usize),
            )));
            let k = choose|k: int|
                qhead0 <= k < queue0.len() && #[trigger] queue0[k] == (a, NodeRef(t as usize));
            if k == qhead0 {
                assert(queue0[qhead0].0 == a && queue0[qhead0].1 == NodeRef(t as usize));
                assert(0 <= t) by {
                    if has_jump(s[a.0 as int]) && jump_resolvable(s, a.0 as int) && t
                        == jump_target(s, a.0 as int) {
                        assert(is_boundary(
                            s,
                            prefix_size(s, a.0 as int) + jump_delta(s, a.0 as int),
                        ));
                    }
                }
                assert(queue0[qhead0].1.0 == t);
                assert(cfg.contains_spec(NodeRef(t as usize)) && cfg.spec_children(a).contains(
                    NodeRef(t as usize),
                ));
            } else {
                assert(queue[k] == queue0[k]);
            }
        } else {
            let k = choose|k: int|
                queue0.len() <= k < queue.len() && (#[trigger] queue[k]).0 == a && queue[k].1.0
                    == t;
            assert(queue[k].1 == NodeRef(t as usize));
            assert(queue[k] == (a, NodeRef(t as usize)));
        }
    }
}

/// What a successfully built instruction-level control-flow graph looks
/// like: well-formed, rooted at the resolved entry index, holding only
/// reachable instruction indices whose jumps all resolve, with an edge
/// exactly for every possible successor.
pub open spec fn cfg_build_post(s: Seq<Instruction>, off: int, cfg: ControlFlowGraph<()>) -> bool {
    &&& cfg.wf()
    &&& is_boundary(s, off)
    &&& {
        let start = boundary_index(s, off);
        &&& (start == s.len() ==> cfg.spec_len() == 0 && forall|n: NodeRef| !cfg.contains_spec(n))
        &&& (start < s.len() ==> {
            &&& cfg.contains_spec(NodeRef(start as usize))
            &&& cfg.root_spec() == Some(NodeRef(start as usize))
            &&& forall|n: NodeRef| #[trigger]
                cfg.contains_spec(n) ==> n.0 < s.len() && reachable(s, start, n.0 as int) && (
                has_jump(s[n.0 as int]) ==> jump_resolvable(s, n.0 as int))
            &&& forall|a: NodeRef, b: NodeRef|
                cfg.contains_spec(a) && #[trigger] cfg.spec_children(a).contains(b)
                    ==> successor_ok(s, a.0 as int, b.0 as int) && b.0 < s.len()
            &&& forall|a: NodeRef, t: int|
                cfg.contains_spec(a) && #[trigger] successor_ok(s, a.0 as int, t) && t < s.len()
                    ==> cfg.contains_spec(NodeRef(t as usize)) && cfg.spec_children(a).contains(
                    NodeRef(t as usize),
                )
        })
    }
}

/// What a failed build reports: an offset failure wrapped with this
/// stage's name, either from resolving the entry offset or from the jump
/// of some reachable instruction.
pub open spec fn cfg_build_err(s: Seq<Instruction>, off: int, e: DecompileError) -> bool {
    &&& e matches DecompileError::Offset { stage, error }
    &&& e->Offset_stage == Stage::CfgConstruction
    &&& {
        ||| byte_to_index_outcome(s, off, Err(e->Offset_error))
        ||| (is_boundary(s, off) && exists|n: int|
            {
                &&& 0 <= n < s.len()
                &&& #[trigger] reachable(s, boundary_index(s, off), n)
                &&& has_jump(s[n])
                &&& rel_jump_outcome(s, n, jump_delta(s, n), Err(e->Offset_error))
            })
    }
}


/// The state maintained by the breadth-first construction: the graph is
/// well-formed and rooted at the entry index, holds only reachable
/// instruction indices with sound edges, and every pending edge obligation
/// is either recorded or still in the remaining queue.
pub open spec fn bfs_inv(
    s: Seq<Instruction>,
    off: int,
    start: usize,
    cfg: ControlFlowGraph<()>,
    queue: Seq<(NodeRef, NodeRef)>,
    qhead: int,
) -> bool {
    &&& 0 <= qhead <= queue.len()
    &&& total_size(s) <= u32::MAX
    &&& s.len() <= usize::MAX
    &&& (start as int) < s.len()
    &&& start as int == boundary_index(s, off)
    &&& is_boundary(s, off)
    &&& cfg.wf()
    &&& cfg.spec_len() <= s.len()
    &&& (cfg.spec_len() == 0 ==> qhead == 0 && queue.len() == 1 && queue[0] == (
        NodeRef(0),
        NodeRef(start),
    ))
    &&& (cfg.spec_len() > 0 ==> cfg.contains_spec(NodeRef(start)) && cfg.root_spec() == Some(
        NodeRef(start),
    ))
    &&& (forall|n: NodeRef| #[trigger]
        cfg.contains_spec(n) ==> n.0 < s.len() && reachable(s, start as int, n.0 as int) && (
        has_jump(s[n.0 as int]) ==> jump_resolvable(s, n.0 as int)))
    &&& (forall|a: NodeRef, b: NodeRef|
        cfg.contains_spec(a) && #[trigger] cfg.spec_children(a).contains(b) ==> successor_ok(
            s,
            a.0 as int,
            b.0 as int,
        ) && b.0 < s.len())
    &&& (cfg.spec_len() > 0 ==> forall|k: int|
        qhead <= k < queue.len() ==> cfg.contains_spec((#[trigger] queue[k]).0) && successor_ok(
            s,
            queue[k].0.0 as int,
            queue[k].1.0 as int,
        ) && reachable(s, start as int, queue[k].1.0 as int))
    &&& (forall|a: NodeRef, t: int|
        cfg.contains_spec(a) && #[trigger] successor_ok(s, a.0 as int, t) && t < s.len() ==> (
        cfg.contains_spec(NodeRef(t as usize)) && cfg.spec_children(a).contains(
            NodeRef(t as usize),
        )) || exists|k: int|
            qhead <= k < queue.len() && #[trigger] queue[k] == (a, NodeRef(t as usize)))
}

/// Re-establishes the construction invariant after a first visit: the
/// freshly recorded member, its incoming edge, and its enqueued successor
/// pairs together preserve every clause.
proof fn lemma_bfs_expand_inv(
    s: Seq<Instruction>,
    off: int,
    start: usize,
    cfg0: ControlFlowGraph<()>,
    cfg: ControlFlowGraph<()>,
    queue0: Seq<(NodeRef, NodeRef)>,
    queue: Seq<(NodeRef, NodeRef)>,
    qhead0: int,
    parent: NodeRef,
    cand: NodeRef,
)
    requires
        bfs_inv(s, off, start, cfg0, queue0, qhead0),
        qhead0 < queue0.len(),
        queue0[qhead0] == (parent, cand),
        cand.0 < s.len(),
        !cfg0.contains_spec(cand),
        reachable(s, start as int, cand.0 as int),
        // what enqueuing the successors guaranteed
        queue0.len() <= queue.len() <= queue0.len() + 2,
        queue.subrange(0, queue0.len() as int) == queue0,
        has_jump(s[cand.0 as int]) ==> jump_resolvable(s, cand.0 as int),
        forall|k: int|
            #![trigger queue[k]]
            queue0.len() <= k < queue.len() ==> queue[k].0 == cand && successor_ok(
                s,
                cand.0 as int,
                queue[k].1.0 as int,
            ),
        forall|t: int|
            #[trigger] successor_ok(s, cand.0 as int, t) ==> exists|k: int|
                #![trigger queue[k]]
                queue0.len() <= k < queue.len() && queue[k].1.0 == t,
        // what recording the node guaranteed
        cfg.wf(),
        forall|n: NodeRef| cfg.contains_spec(n) <==> (cfg0.contains_spec(n) || n == cand),
        cfg.spec_len() == cfg0.spec_len() + 1,
        cfg.spec_len() <= s.len(),
        cfg.root_spec() == if cfg0.spec_len() == 0 {
            Some(cand)
        } else {
            cfg0.root_spec()
        },
        cfg.spec_children(cand) == Set::<NodeRef>::empty(),
        cfg0.spec_len() > 0 ==> cfg.spec_children(parent) == cfg0.spec_children(parent).insert(
            cand,
        ),
        forall|a: NodeRef|
            a != parent && a != cand && cfg0.contains_spec(a) ==> cfg.spec_children(a)
                == cfg0.spec_children(a),
        cfg0.spec_len() == 0 ==> cand == NodeRef(start),
    ensures
        bfs_inv(s, off, start, cfg, queue, qhead0 + 1),
{
    if cfg0.spec_len() == 0 {
        cfg0.lemma_empty();
    }
    lemma_queue_pairs_extend(s, start as int, cfg0, cfg, queue0, queue, qhead0, cand);
    assert forall|a: NodeRef, t: int|
        cfg.contains_spec(a) && !cfg0.contains_spec(a) && #[trigger] successor_ok(
            s,
            a.0 as int,
            t,
        ) implies exists|k: int|
        queue0.len() <= k < queue.len() && (#[trigger] queue[k]).0 == a && queue[k].1.0 == t by {
        assert(a == cand);
    }
    if cfg0.spec_len() > 0 {
        assert(cfg.spec_children(parent).contains(cand));
    }
    lemma_obligations_advance(s, cfg0, cfg, queue0, queue, qhead0);
    assert forall|n: NodeRef| #[trigger]
        cfg.contains_spec(n) implies n.0 < s.len() && reachable(s, start as int, n.0 as int) && (
        has_jump(s[n.0 as int]) ==> jump_resolvable(s, n.0 as int)) by {
        if n != cand {
            assert(cfg0.contains_spec(n));
        }
    }
    assert forall|a: NodeRef, b: NodeRef|
        cfg.contains_spec(a) && #[trigger] cfg.spec_children(a).contains(b) implies successor_ok(
        s,
        a.0 as int,
        b.0 as int,
    ) && b.0 < s.len() by {
        if a == cand {
        } else {
            assert(cfg0.contains_spec(a));
            if cfg0.spec_len() > 0 && a == parent {
                assert(cfg.spec_children(parent) == cfg0.spec_children(parent).insert(cand));
                if b == cand {
                    assert(successor_ok(
                        s,
                        queue0[qhead0].0.0 as int,
                        queue0[qhead0].1.0 as int,
                    ));
                } else {
                    assert(cfg0.spec_children(a).contains(b));
                }
            } else {
                assert(cfg0.spec_children(a).contains(b));
            }
        }
    }
}

/// Handles a revisit: the candidate is already a member, so only the edge
/// is recorded and its successors are not enqueued again.
#[verifier::rlimit(100)]
#[verifier::spinoff_prover]
fn bfs_revisit(
    cfg: &mut ControlFlowGraph<()>,
    queue: &Vec<(NodeRef, NodeRef)>,
    code: &Code,
    start: usize,
    parent: NodeRef,
    cand: NodeRef,
    Ghost(qhead0): Ghost<int>,
)
    requires
        bfs_inv(code.instructions@, code.execution_offset as int, start, *old(cfg), queue@, qhead0),
        qhead0 < queue@.len(),
        queue@[qhead0] == (parent, cand),
        cand.0 < code.instructions@.len(),
        old(cfg).contains_spec(cand),
    ensures
        bfs_inv(
            code.instructions@,
            code.execution_offset as int,
            start,
            *final(cfg),
            queue@,
            qhead0 + 1,
        ),
        final(cfg).spec_len() == old(cfg).spec_len(),
{
    let ghost s = code.instructions@;
    let ghost queue0 = queue@;
    let ghost cfg0 = *cfg;
    proof {
        cfg.lemma_member_nonempty(cand);
    }
    record_revisit_edge(cfg, parent, cand);
    proof {
        assert(queue@.subrange(0, queue0.len() as int) =~= queue0);
        assert(cfg.spec_children(parent) == cfg0.spec_children(parent).insert(cand));
        assert(cfg.spec_children(parent).contains(cand));
        lemma_obligations_advance(s, cfg0, *cfg, queue0, queue@, qhead0);
    }
}

/// Expands a first visit: enqueues every successor of the candidate, then
/// records the node itself with its incoming edge.
#[verifier::rlimit(100)]
#[verifier::spinoff_prover]
fn bfs_expand(
    cfg: &mut ControlFlowGraph<()>,
    queue: &mut Vec<(NodeRef, NodeRef)>,
    code: &Code,
    start: usize,
    parent: NodeRef,
    cand: NodeRef,
    Ghost(qhead0): Ghost<int>,
) -> (r: Result<(), DecompileError>)
    requires
        bfs_inv(
            code.instructions@,
            code.execution_offset as int,
            start,
            *old(cfg),
            old(queue)@,
            qhead0,
        ),
        qhead0 < old(queue)@.len(),
        old(queue)@[qhead0] == (parent, cand),
        cand.0 < code.instructions@.len(),
        !old(cfg).contains_spec(cand),
    ensures
        match r {
            Ok(_) => {
                &&& bfs_inv(
                    code.instructions@,
                    code.execution_offset as int,
                    start,
                    *final(cfg),
                    final(queue)@,
                    qhead0 + 1,
                )
                &&& final(cfg).spec_len() == old(cfg).spec_len() + 1
                &&& final(queue)@.len() <= old(queue)@.len() + 2
            },
            Err(e) => cfg_build_err(code.instructions@, code.execution_offset as int, e),
        },
{
    let ghost s = code.instructions@;
    let ghost queue0 = queue@;
    let ghost cfg0 = *cfg;
    proof {
        if cfg0.spec_len() == 0 {
            let p = seq![start as int];
            assert(p.last() == start as int);
            assert(path_ok(s, p));
            assert(reachable(s, start as int, start as int));
            assert(cand == NodeRef(start));
        }
        assert(reachable(s, start as int, cand.0 as int));
    }
    let result = enqueue_successors(queue, code.instructions.as_slice(), cand);
    match result {
        Ok(_) => {},
        Err(e) => {
            return Err(e);
        },
    }
    record_new_node(cfg, parent, cand);
    proof {
        cfg.lemma_len_bound(s.len() as usize);
        assert(queue@.subrange(0, queue0.len() as int) =~= queue0);
        lemma_bfs_expand_inv(
            s,
            code.execution_offset as int,
            start,
            cfg0,
            *cfg,
            queue0,
            queue@,
            qhead0,
            parent,
            cand,
        );
    }
    Ok(())
}

/// One step of the breadth-first construction: consumes the queue's head
/// pair, records the node and edge it describes, and enqueues the
/// candidate's successors if this is its first visit.
#[verifier::rlimit(100)]
#[verifier::spinoff_prover]
fn bfs_step(
    cfg: &mut ControlFlowGraph<()>,
    queue: &mut Vec<(NodeRef, NodeRef)>,
    qhead: &mut usize,
    code: &Code,
    start: usize,
) -> (r: Result<(), DecompileError>)
    requires
        *old(qhead) < old(queue)@.len(),
        bfs_inv(
            code.instructions@,
            code.execution_offset as int,
            start,
            *old(cfg),
            old(queue)@,
            *old(qhead) as int,
        ),
    ensures
        match r {
            Ok(_) => {
                &&& bfs_inv(
                    code.instructions@,
                    code.execution_offset as int,
                    start,
                    *final(cfg),
                    final(queue)@,
                    *final(qhead) as int,
                )
                &&& 3 * (code.instructions@.len() - final(cfg).spec_len()) + (final(queue)@.len()
                    - *final(qhead)) < 3 * (code.instructions@.len() - old(cfg).spec_len()) + (
                old(queue)@.len() - *old(qhead))
            },
            Err(e) => cfg_build_err(code.instructions@, code.execution_offset as int, e),
        },
{
    let ghost s = code.instructions@;
    let ghost off = code.execution_offset as int;
    proof {
        assert(bfs_inv(s, off, start, *cfg, queue@, *qhead as int));
        vstd::std_specs::vec::axiom_spec_len(queue);
    }
    let pair = queue[*qhead];
    let parent = pair.0;
    let cand = pair.1;
    let ghost qhead0 = *qhead as int;
    let ghost queue0 = queue@;
    *qhead = *qhead + 1;
    if cand.0 >= code.instructions.len() {
        proof {
            assert(queue@.subrange(0, queue0.len() as int) =~= queue0);
            lemma_obligations_advance(s, *cfg, *cfg, queue0, queue@, qhead0);
        }
        return Ok(());
    }
    if cfg.has(cand) {
        bfs_revisit(cfg, queue, code, start, parent, cand, Ghost(qhead0));
        return Ok(());
    }
    match bfs_expand(cfg, queue, code, start, parent, cand, Ghost(qhead0)) {
        Ok(_) => Ok(()),
        Err(e) => Err(e),
    }
}

/// Builds the instruction-level control-flow graph of one code entry by
/// breadth-first traversal from its entry instruction.
///
/// One graph node stands for each reachable instruction index, with an edge
/// to every possible successor (resolved jump targets and fallthroughs).
/// A node's successors are enqueued when it is first reached; a revisit
/// records the edge but is not expanded again, so loops and diamond
/// confluences cannot cause unbounded expansion.  Any offset-resolution
/// failure aborts the whole build, wrapped with this stage's name.
#[verifier::rlimit(100)]
#[verifier::spinoff_prover]
pub fn create_instr_cfg_from_code(code: &Code) -> (r: Result<ControlFlowGraph<()>, DecompileError>)
    requires
        total_size(code.instructions@) <= u32::MAX,
    ensures
        ({
            let s = code.instructions@;
            let off = code.execution_offset as int;
            match r {
                Ok(cfg) => cfg_build_post(s, off, cfg),
                Err(e) => cfg_build_err(s, off, e),
            }
        }),
{
    let ghost s = code.instructions@;
    let ghost off = code.execution_offset as int;
    let start = match get_index_from_bytes(code.instructions.as_slice(), code.execution_offset) {
        Ok(v) => v,
        Err(e) => {
            return Err(DecompileError::Offset { stage: Stage::CfgConstruction, error: e });
        },
    };
    proof {
        assert(is_boundary(s, off));
        lemma_boundary_unique(s, boundary_index(s, off), start as int);
    }
    let mut cfg = ControlFlowGraph::<()>::new_rootless();
    if start >= code.instructions.len() {
        return Ok(cfg);
    }
    let mut queue: Vec<(NodeRef, NodeRef)> = vec![(NodeRef(0), NodeRef(start))];
    let mut qhead: usize = 0;
    proof {
        let p = seq![start as int];
        assert(p.last() == start as int);
        assert(path_ok(s, p));
        assert(reachable(s, start as int, start as int));
    }
    while qhead < queue.len()
        invariant
            s == code.instructions@,
            off == code.execution_offset as int,
            bfs_inv(s, off, start, cfg, queue@, qhead as int),
        decreases 3 * (s.len() - cfg.spec_len()) + (queue@.len() - qhead),
    {
        let step = bfs_step(&mut cfg, &mut queue, &mut qhead, code, start);
        match step {
            Ok(_) => {},
            Err(e) => {
                return Err(e);
            },
        }
    }
    Ok(cfg)
}

/// A strictly ascending sequence holding exactly the members of a graph.
pub open spec fn is_sorted_member_seq<M>(g: ControlFlowGraph<M>, m: Seq<NodeRef>) -> bool {
    &&& forall|i: int, j: int| 0 <= i < j < m.len() ==> m[i].0 < m[j].0
    &&& forall|n: NodeRef| #[trigger] m.contains(n) <==> g.contains_spec(n)
}

/// Two strictly ascending sequences with the same members are equal.
pub proof fn lemma_sorted_seq_unique(m1: Seq<NodeRef>, m2: Seq<NodeRef>)
    requires
        forall|i: int, j: int| 0 <= i < j < m1.len() ==> m1[i].0 < m1[j].0,
        forall|i: int, j: int| 0 <= i < j < m2.len() ==> m2[i].0 < m2[j].0,
        forall|n: NodeRef| #[trigger] m1.contains(n) <==> m2.contains(n),
    ensures
        m1 == m2,
    decreases m1.len(),
{
    if m1.len() == 0 {
        if m2.len() > 0 {
            assert(m2.contains(m2[0]));
            assert(m1.contains(m2[0]));
        }
        assert(m1 =~= m2);
    } else {
        assert(m1.contains(m1[0]));
        assert(m2.contains(m1[0]));
        let k2 = choose|k: int| 0 <= k < m2.len() && m2[k] == m1[0];
        if k2 > 0 {
            assert(m2.contains(m2[0]));
            assert(m1.contains(m2[0]));
            let k1 = choose|k: int| 0 <= k < m1.len() && m1[k] == m2[0];
            assert(m2[0].0 < m2[k2].0);
            assert(k1 > 0 ==> m1[0].0 < m1[k1].0);
            assert(false);
        }
        let t1 = m1.drop_first();
        let t2 = m2.drop_first();
        assert forall|n: NodeRef| #[trigger] t1.contains(n) implies t2.contains(n) by {
            let k = choose|k: int| 0 <= k < t1.len() && t1[k] == n;
            assert(m1[k + 1] == n);
            assert(m1[0].0 < n.0);
            assert(m1.contains(n));
            assert(m2.contains(n));
            let j = choose|j: int| 0 <= j < m2.len() && m2[j] == n;
            assert(j != 0);
            assert(t2[j - 1] == n);
        }
        assert forall|n: NodeRef| #[trigger] t2.contains(n) implies t1.contains(n) by {
            let k = choose|k: int| 0 <= k < t2.len() && t2[k] == n;
            assert(m2[k + 1] == n);
            assert(m2[0].0 < n.0);
            assert(m2.contains(n));
            assert(m1.contains(n));
            let j = choose|j: int| 0 <= j < m1.len() && m1[j] == n;
            assert(j != 0);
            assert(t1[j - 1] == n);
        }
        lemma_sorted_seq_unique(t1, t2);
        assert(t1 == t2);
        assert(m1.len() == m2.len());
        assert forall|i: int| 0 <= i < m1.len() implies m1[i] == m2[i] by {
            if i > 0 {
                assert(t1[i - 1] == m1[i]);
                assert(t2[i - 1] == m2[i]);
            }
        }
        assert(m1 =~= m2);
    }
}


/// The members of a graph in ascending order: the unique strictly
/// ascending sequence holding exactly its members.
pub open spec fn sorted_members<M>(g: ControlFlowGraph<M>) -> Seq<NodeRef> {
    choose|m: Seq<NodeRef>| #[trigger] is_sorted_member_seq(g, m)
}

/// Whether a member node ends a basic block: it has zero or several
/// children, or its instruction is an unconditional jump.
pub open spec fn is_trailer_node(s: Seq<Instruction>, g: ControlFlowGraph<()>, n: NodeRef) -> bool {
    ||| g.spec_children(n).len() != 1
    ||| s[n.0 as int] is Branch
}

/// The trailer instruction indices contributed by the member nodes `m`, in
/// order.
pub open spec fn trailer_indices(
    s: Seq<Instruction>,
    g: ControlFlowGraph<()>,
    m: Seq<NodeRef>,
) -> Seq<usize>
    decreases m.len(),
{
    if m.len() == 0 {
        Seq::empty()
    } else {
        let rest = trailer_indices(s, g, m.drop_first());
        if is_trailer_node(s, g, m[0]) {
            seq![m[0].0] + rest
        } else {
            rest
        }
    }
}

/// The leader instruction indices contributed by the member nodes `m`:
/// each trailer below the last member index starts a new block right after
/// itself.
pub open spec fn leader_tail_indices(
    s: Seq<Instruction>,
    g: ControlFlowGraph<()>,
    m: Seq<NodeRef>,
) -> Seq<usize>
    decreases m.len(),
{
    if m.len() == 0 {
        Seq::empty()
    } else {
        let rest = leader_tail_indices(s, g, m.drop_first());
        if is_trailer_node(s, g, m[0]) && (m[0].0 as int) < g.spec_len() - 1 {
            seq![(m[0].0 + 1) as usize] + rest
        } else {
            rest
        }
    }
}

/// All leader instruction indices: index 0 is always a leader.
pub open spec fn leader_indices(
    s: Seq<Instruction>,
    g: ControlFlowGraph<()>,
    m: Seq<NodeRef>,
) -> Seq<usize> {
    seq![0usize] + leader_tail_indices(s, g, m)
}

/// Pairing trailers with leaders, in discovery order, yields the half-open
/// instruction ranges of the basic blocks.
pub open spec fn block_ranges(
    s: Seq<Instruction>,
    g: ControlFlowGraph<()>,
    m: Seq<NodeRef>,
) -> Seq<(int, int)> {
    let ts = trailer_indices(s, g, m);
    let ls = leader_indices(s, g, m);
    let nb = if ts.len() < ls.len() {
        ts.len() as int
    } else {
        ls.len() as int
    };
    Seq::new(nb as nat, |k: int| (ls[k] as int, ts[k] as int + 1))
}

/// The first block whose range holds the instruction index `p`, scanning
/// from block `k` on.
pub open spec fn owner_from(ranges: Seq<(int, int)>, p: int, k: int) -> Option<int>
    decreases ranges.len() - k,
{
    if k < 0 || k >= ranges.len() {
        None
    } else if ranges[k].0 <= p < ranges[k].1 {
        Some(k)
    } else {
        owner_from(ranges, p, k + 1)
    }
}

/// Whether the block graph has an edge from block `k1` to block `k2`: some
/// parent, in the instruction graph, of block `k2`'s leader instruction is
/// owned by block `k1`.
pub open spec fn block_edge(
    g: ControlFlowGraph<()>,
    ranges: Seq<(int, int)>,
    k1: int,
    k2: int,
) -> bool {
    &&& 0 <= k2 < ranges.len()
    &&& g.contains_spec(NodeRef(ranges[k2].0 as usize))
    &&& exists|p: NodeRef|
        #[trigger] g.spec_parents(NodeRef(ranges[k2].0 as usize)).contains(p) && owner_from(
            ranges,
            p.0 as int,
            0,
        ) == Some(k1)
}

/// What the basic-block partition of an instruction graph looks like:
/// one node per block, numbered in discovery order and rooted at block 0,
/// each carrying its half-open instruction range, still unresolved, with
/// an edge wherever an instruction-graph edge crosses into a block leader.
pub open spec fn partition_post(
    s: Seq<Instruction>,
    g: ControlFlowGraph<()>,
    out: ControlFlowGraph<crate::resolver::BlockMeta>,
) -> bool {
    let m = sorted_members(g);
    let ranges = block_ranges(s, g, m);
    &&& is_sorted_member_seq(g, m)
    &&& out.wf()
    &&& out.spec_len() == ranges.len()
    &&& forall|n: NodeRef| #[trigger] out.contains_spec(n) <==> (n.0 as int) < ranges.len()
    &&& forall|k: int|
        0 <= k < ranges.len() ==> {
            let meta = #[trigger] out.spec_meta(NodeRef(k as usize));
            &&& meta.instr_range.0 as int == ranges[k].0
            &&& meta.instr_range.1 as int == ranges[k].1
            &&& meta.resolve_state is Unresolved
        }
    &&& out.root_spec() == if ranges.len() > 0 {
        Some(NodeRef(0))
    } else {
        None::<NodeRef>
    }
    &&& forall|k1: NodeRef, k2: NodeRef|
        out.contains_spec(k1) && #[trigger] out.spec_children(k1).contains(k2) <==> block_edge(
            g,
            ranges,
            k1.0 as int,
            k2.0 as int,
        ) && (k1.0 as int) < ranges.len()
}

proof fn lemma_trailer_indices_push(
    s: Seq<Instruction>,
    g: ControlFlowGraph<()>,
    a: Seq<NodeRef>,
    x: NodeRef,
)
    ensures
        trailer_indices(s, g, a.push(x)) == trailer_indices(s, g, a) + if is_trailer_node(
            s,
            g,
            x,
        ) {
            seq![x.0]
        } else {
            Seq::<usize>::empty()
        },
    decreases a.len(),
{
    if a.len() == 0 {
        let x_part = if is_trailer_node(s, g, x) {
            seq![x.0]
        } else {
            Seq::<usize>::empty()
        };
        assert(a.push(x)[0] == x);
        assert(a.push(x).drop_first() =~= a);
        assert(trailer_indices(s, g, a) == Seq::<usize>::empty());
        assert(trailer_indices(s, g, a.push(x)) == if is_trailer_node(s, g, x) {
            seq![x.0] + trailer_indices(s, g, a)
        } else {
            trailer_indices(s, g, a)
        });
        assert(trailer_indices(s, g, a.push(x)) =~= trailer_indices(s, g, a) + x_part);
    } else {
        assert(a.push(x).drop_first() =~= a.drop_first().push(x));
        lemma_trailer_indices_push(s, g, a.drop_first(), x);
        assert(a.push(x)[0] == a[0]);
        let x_part = if is_trailer_node(s, g, x) {
            seq![x.0]
        } else {
            Seq::<usize>::empty()
        };
        assert(trailer_indices(s, g, a.push(x).drop_first()) == trailer_indices(
            s,
            g,
            a.drop_first(),
        ) + x_part);
        assert(trailer_indices(s, g, a.push(x)) =~= trailer_indices(s, g, a) + x_part);
    }
}

proof fn lemma_leader_tail_indices_push(
    s: Seq<Instruction>,
    g: ControlFlowGraph<()>,
    a: Seq<NodeRef>,
    x: NodeRef,
)
    ensures
        leader_tail_indices(s, g, a.push(x)) == leader_tail_indices(s, g, a) + if is_trailer_node(
            s,
            g,
            x,
        ) && (x.0 as int) < g.spec_len() - 1 {
            seq![(x.0 + 1) as usize]
        } else {
            Seq::<usize>::empty()
        },
    decreases a.len(),
{
    if a.len() == 0 {
        let x_part = if is_trailer_node(s, g, x) && (x.0 as int) < g.spec_len() - 1 {
            seq![(x.0 + 1) as usize]
        } else {
            Seq::<usize>::empty()
        };
        assert(a.push(x)[0] == x);
        assert(a.push(x).drop_first() =~= a);
        assert(leader_tail_indices(s, g, a) == Seq::<usize>::empty());
        assert(leader_tail_indices(s, g, a.push(x)) == if is_trailer_node(s, g, x) && (
        x.0 as int) < g.spec_len() - 1 {
            seq![(x.0 + 1) as usize] + leader_tail_indices(s, g, a)
        } else {
            leader_tail_indices(s, g, a)
        });
        assert(leader_tail_indices(s, g, a.push(x)) =~= leader_tail_indices(s, g, a) + x_part);
    } else {
        assert(a.push(x).drop_first() =~= a.drop_first().push(x));
        lemma_leader_tail_indices_push(s, g, a.drop_first(), x);
        assert(a.push(x)[0] == a[0]);
        let x_part = if is_trailer_node(s, g, x) && (x.0 as int) < g.spec_len() - 1 {
            seq![(x.0 + 1) as usize]
        } else {
            Seq::<usize>::empty()
        };
        assert(leader_tail_indices(s, g, a.push(x).drop_first()) == leader_tail_indices(
            s,
            g,
            a.drop_first(),
        ) + x_part);
        assert(leader_tail_indices(s, g, a.push(x)) =~= leader_tail_indices(s, g, a) + x_part);
    }
}

/// Scans the block ranges in discovery order for the first one holding the
/// instruction index `p`.
fn owner_search(
    leaders: &Vec<usize>,
    trailers: &Vec<usize>,
    nb: usize,
    p: usize,
    Ghost(ranges): Ghost<Seq<(int, int)>>,
) -> (r: Option<usize>)
    requires
        nb <= leaders@.len(),
        nb <= trailers@.len(),
        ranges.len() == nb,
        forall|k: int|
            0 <= k < nb ==> (#[trigger] ranges[k]).0 == leaders@[k] && ranges[k].1 == trailers@[k]
                + 1,
    ensures
        match r {
            Some(k) => k < nb && owner_from(ranges, p as int, 0) == Some(k as int),
            None => owner_from(ranges, p as int, 0) is None,
        },
{
    for k in 0..nb
        invariant
            nb <= leaders@.len(),
            nb <= trailers@.len(),
            ranges.len() == nb,
            forall|k2: int|
                0 <= k2 < nb ==> (#[trigger] ranges[k2]).0 == leaders@[k2] && ranges[k2].1
                    == trailers@[k2] + 1,
            owner_from(ranges, p as int, 0) == owner_from(ranges, p as int, k as int),
    {
        if leaders[k] <= p && p <= trailers[k] {
            return Some(k);
        }
    }
    None
}

/// Collapses a per-instruction control-flow graph into a block-level one.
///
/// Computes the leader (block-starting) and trailer (block-ending)
/// instruction indices over the members of the instruction graph, pairs
/// them in discovery order into half-open ranges, and builds a new graph
/// with one unresolved node per block, rooted at block 0; for each block,
/// every instruction-graph parent of the block's leader contributes an edge
/// from the block owning that parent instruction.
pub fn instr_cfg_to_block_cfg(code: &Code, in_cfg: ControlFlowGraph<()>) -> (r: ControlFlowGraph<
    crate::resolver::BlockMeta,
>)
    requires
        in_cfg.wf(),
        forall|n: NodeRef| #[trigger] in_cfg.contains_spec(n) ==> n.0 < code.instructions@.len(),
    ensures
        partition_post(code.instructions@, in_cfg, r),
{
    let ghost s = code.instructions@;
    let members = in_cfg.iter();
    let ghost m = members@;
    proof {
        assert(is_sorted_member_seq(in_cfg, m));
    }
    let total_count = code.instructions.len();
    proof {
        assert(m.subrange(0, 0) =~= Seq::<NodeRef>::empty());
        assert(trailer_indices(s, in_cfg, m.subrange(0, 0)) =~= Seq::<usize>::empty());
        assert(leader_tail_indices(s, in_cfg, m.subrange(0, 0)) =~= Seq::<usize>::empty());
    }
    let mut leaders: Vec<usize> = Vec::new();
    leaders.push(0);
    let mut trailers: Vec<usize> = Vec::new();
    let n = members.len();
    for idx in 0..n
        invariant
            n == m.len(),
            members@ == m,
            s == code.instructions@,
            s.len() == total_count,
            in_cfg.wf(),
            in_cfg.spec_len() == m.len(),
            is_sorted_member_seq(in_cfg, m),
            forall|n2: NodeRef| #[trigger] in_cfg.contains_spec(n2) ==> n2.0 < s.len(),
            trailers@ == trailer_indices(s, in_cfg, m.subrange(0, idx as int)),
            leaders@ == leader_indices(s, in_cfg, m.subrange(0, idx as int)),
            forall|i: int| 0 <= i < trailers@.len() ==> #[trigger] trailers@[i] < s.len(),
    {
        let node = members[idx];
        proof {
            assert(m.contains(m[idx as int]));
            assert(in_cfg.contains_spec(node));
            assert(m.subrange(0, idx + 1) =~= m.subrange(0, idx as int).push(node));
            lemma_trailer_indices_push(s, in_cfg, m.subrange(0, idx as int), node);
            lemma_leader_tail_indices_push(s, in_cfg, m.subrange(0, idx as int), node);
        }
        let kids = in_cfg.children_of(node);
        proof {
            kids@.unique_seq_to_set();
        }
        let is_trailer = kids.len() != 1 || matches!(
            &code.instructions[node.0],
            Instruction::Branch { .. },
        );
        proof {
            assert(is_trailer == is_trailer_node(s, in_cfg, node));
        }
        let ghost old_trailers = trailers@;
        let ghost old_leaders = leaders@;
        if is_trailer {
            trailers.push(node.0);
            let count = in_cfg.len();
            proof {
                assert(members@.contains(node));
            }
            if node.0 < count - 1 {
                leaders.push(node.0 + 1);
            }
        }
        proof {
            assert(seq![0usize] + (leader_tail_indices(s, in_cfg, m.subrange(0, idx as int))
                + Seq::<usize>::empty()) =~= old_leaders + Seq::<usize>::empty());
            assert(seq![0usize] + (leader_tail_indices(s, in_cfg, m.subrange(0, idx as int))
                + seq![(node.0 + 1) as usize]) =~= old_leaders + seq![(node.0 + 1) as usize]);
            let ts_old = trailer_indices(s, in_cfg, m.subrange(0, idx as int));
            let ts_new = trailer_indices(s, in_cfg, m.subrange(0, idx + 1));
            let ls_old = leader_tail_indices(s, in_cfg, m.subrange(0, idx as int));
            let ls_new = leader_tail_indices(s, in_cfg, m.subrange(0, idx + 1));
            if is_trailer_node(s, in_cfg, node) {
                assert(ts_new == ts_old + seq![node.0]);
                assert(trailers@ =~= ts_new);
                if (node.0 as int) < in_cfg.spec_len() - 1 {
                    assert(ls_new == ls_old + seq![(node.0 + 1) as usize]);
                    assert(leaders@ =~= seq![0usize] + ls_new);
                } else {
                    assert(ls_new == ls_old + Seq::<usize>::empty());
                    assert(ls_new =~= ls_old);
                    assert(leaders@ =~= seq![0usize] + ls_new);
                }
            } else {
                assert(ts_new == ts_old + Seq::<usize>::empty());
                assert(ts_new =~= ts_old);
                assert(trailers@ =~= ts_new);
                assert(ls_new == ls_old + Seq::<usize>::empty());
                assert(ls_new =~= ls_old);
                assert(leaders@ =~= seq![0usize] + ls_new);
            }
        }
    }
    proof {
        assert(m.subrange(0, m.len() as int) =~= m);
    }
    let nb = if trailers.len() < leaders.len() {
        trailers.len()
    } else {
        leaders.len()
    };
    let ghost ranges = block_ranges(s, in_cfg, m);
    proof {
        assert(trailers@ == trailer_indices(s, in_cfg, m));
        assert(leaders@ == leader_indices(s, in_cfg, m));
        assert(ranges.len() == nb);
        assert forall|k: int|
            0 <= k < nb implies (#[trigger] ranges[k]).0 == leaders@[k] && ranges[k].1
            == trailers@[k] + 1 by {}
    }
    let mut out: ControlFlowGraph<crate::resolver::BlockMeta> = ControlFlowGraph::new_rootless();
    for k in 0..nb
        invariant
            nb <= leaders@.len(),
            nb <= trailers@.len(),
            ranges.len() == nb,
            s.len() == total_count,
            forall|k2: int|
                0 <= k2 < nb ==> (#[trigger] ranges[k2]).0 == leaders@[k2] && ranges[k2].1
                    == trailers@[k2] + 1,
            forall|i: int| 0 <= i < trailers@.len() ==> trailers@[i] < s.len(),
            out.wf(),
            out.spec_len() == k,
            forall|n2: NodeRef| #[trigger] out.contains_spec(n2) <==> (n2.0 as int) < k as int,
            forall|k2: int|
                0 <= k2 < k ==> {
                    let meta = #[trigger] out.spec_meta(NodeRef(k2 as usize));
                    &&& meta.instr_range.0 as int == ranges[k2].0
                    &&& meta.instr_range.1 as int == ranges[k2].1
                    &&& meta.resolve_state is Unresolved
                },
            out.root_spec() == if k > 0 {
                Some(NodeRef(0))
            } else {
                None::<NodeRef>
            },
            forall|a: NodeRef, b: NodeRef|
                out.contains_spec(a) ==> !(#[trigger] out.spec_children(a).contains(b)),
    {
        out.insert_parentless(
            NodeRef(k),
            crate::resolver::BlockMeta {
                instr_range: (leaders[k], trailers[k] + 1),
                resolve_state: crate::resolver::ResolveState::Unresolved,
            },
        );
    }
    for k2 in 0..nb
        invariant
            nb <= leaders@.len(),
            nb <= trailers@.len(),
            ranges.len() == nb,
            s == code.instructions@,
            s.len() == total_count,
            in_cfg.wf(),
            forall|n2: NodeRef| #[trigger] in_cfg.contains_spec(n2) ==> n2.0 < s.len(),
            forall|k3: int|
                0 <= k3 < nb ==> (#[trigger] ranges[k3]).0 == leaders@[k3] && ranges[k3].1
                    == trailers@[k3] + 1,
            forall|i: int| 0 <= i < trailers@.len() ==> trailers@[i] < s.len(),
            out.wf(),
            out.spec_len() == nb,
            forall|n2: NodeRef| #[trigger] out.contains_spec(n2) <==> (n2.0 as int) < nb as int,
            forall|k3: int|
                0 <= k3 < nb ==> {
                    let meta = #[trigger] out.spec_meta(NodeRef(k3 as usize));
                    &&& meta.instr_range.0 as int == ranges[k3].0
                    &&& meta.instr_range.1 as int == ranges[k3].1
                    &&& meta.resolve_state is Unresolved
                },
            out.root_spec() == if nb > 0 {
                Some(NodeRef(0))
            } else {
                None::<NodeRef>
            },
            forall|a: NodeRef, b: NodeRef|
                out.contains_spec(a) && #[trigger] out.spec_children(a).contains(b) <==> (
                block_edge(in_cfg, ranges, a.0 as int, b.0 as int) && (b.0 as int) < k2 as int && (
                a.0 as int) < nb as int),
    {
        let leader = leaders[k2];
        let has_leader = in_cfg.has(NodeRef(leader));
        if has_leader {
            let parents = in_cfg.parents_of(NodeRef(leader));
            let ghost pv = parents@;
            proof {
                pv.unique_seq_to_set();
            }
            let np = parents.len();
            for j in 0..np
                invariant
                    np == pv.len(),
                    parents@ == pv,
                    s.len() == total_count,
                    forall|i: int| 0 <= i < trailers@.len() ==> trailers@[i] < s.len(),
                    pv.to_set() == in_cfg.spec_parents(NodeRef(leaders@[k2 as int] as usize)),
                    in_cfg.contains_spec(NodeRef(leaders@[k2 as int] as usize)),
                    k2 < nb,
                    nb <= leaders@.len(),
                    nb <= trailers@.len(),
                    ranges.len() == nb,
                    forall|k3: int|
                        0 <= k3 < nb ==> (#[trigger] ranges[k3]).0 == leaders@[k3] && ranges[k3].1
                            == trailers@[k3] + 1,
                    out.wf(),
                    out.spec_len() == nb,
                    forall|n2: NodeRef| #[trigger]
                        out.contains_spec(n2) <==> (n2.0 as int) < nb as int,
                    forall|k3: int|
                        0 <= k3 < nb ==> {
                            let meta = #[trigger] out.spec_meta(NodeRef(k3 as usize));
                            &&& meta.instr_range.0 as int == ranges[k3].0
                            &&& meta.instr_range.1 as int == ranges[k3].1
                            &&& meta.resolve_state is Unresolved
                        },
                    out.root_spec() == Some(NodeRef(0)),
                    forall|a: NodeRef, b: NodeRef|
                        out.contains_spec(a) && #[trigger] out.spec_children(a).contains(b) <==> ((
                        a.0 as int) < nb as int && ((block_edge(
                            in_cfg,
                            ranges,
                            a.0 as int,
                            b.0 as int,
                        ) && (b.0 as int) < k2 as int) || ((b.0 as int) == k2 as int && exists|
                            jp: int,
                        |
                            0 <= jp < j && owner_from(ranges, (#[trigger] pv[jp]).0 as int, 0)
                                == Some(a.0 as int)))),
            {
                let p = parents[j];
                match owner_search(&leaders, &trailers, nb, p.0, Ghost(ranges)) {
                    Some(k1) => {
                        let ghost out_prev = out;
                        out.insert(
                            NodeRef(k1),
                            NodeRef(k2),
                            crate::resolver::BlockMeta {
                                instr_range: (leaders[k2], trailers[k2] + 1),
                                resolve_state: crate::resolver::ResolveState::Unresolved,
                            },
                        );
                        proof {
                            assert forall|a: NodeRef, b: NodeRef|
                                out.contains_spec(a) && #[trigger] out.spec_children(a).contains(
                                    b,
                                ) implies ((a.0 as int) < nb as int && ((block_edge(
                                in_cfg,
                                ranges,
                                a.0 as int,
                                b.0 as int,
                            ) && (b.0 as int) < k2 as int) || ((b.0 as int) == k2 as int && exists|
                                jp: int,
                            |
                                0 <= jp < j + 1 && owner_from(
                                    ranges,
                                    (#[trigger] pv[jp]).0 as int,
                                    0,
                                ) == Some(a.0 as int)))) by {
                                if a == NodeRef(k1) && b == NodeRef(k2) {
                                    assert(owner_from(ranges, pv[j as int].0 as int, 0) == Some(
                                        a.0 as int,
                                    ));
                                } else if b == NodeRef(k2) {
                                    assert(out_prev.spec_children(a).contains(b));
                                    let jp = choose|jp: int|
                                        0 <= jp < j && owner_from(
                                            ranges,
                                            (#[trigger] pv[jp]).0 as int,
                                            0,
                                        ) == Some(a.0 as int);
                                    assert(0 <= jp < j + 1);
                                } else {
                                    assert(out_prev.spec_children(a).contains(b));
                                }
                            }
                            assert forall|a: NodeRef, b: NodeRef|
                                ((a.0 as int) < nb as int && ((block_edge(
                                    in_cfg,
                                    ranges,
                                    a.0 as int,
                                    b.0 as int,
                                ) && (b.0 as int) < k2 as int) || ((b.0 as int) == k2 as int
                                    && exists|jp: int|
                                    0 <= jp < j + 1 && owner_from(
                                        ranges,
                                        (#[trigger] pv[jp]).0 as int,
                                        0,
                                    ) == Some(a.0 as int)))) implies out.contains_spec(a)
                                && out.spec_children(a).contains(b) by {
                                if (b.0 as int) == k2 as int {
                                    let jp = choose|jp: int|
                                        0 <= jp < j + 1 && owner_from(
                                            ranges,
                                            (#[trigger] pv[jp]).0 as int,
                                            0,
                                        ) == Some(a.0 as int);
                                    if jp < j {
                                        assert(out_prev.spec_children(a).contains(b));
                                    } else {
                                        assert(a == NodeRef(k1));
                                        assert(b == NodeRef(k2));
                                    }
                                } else {
                                    assert(out_prev.spec_children(a).contains(b));
                                }
                            }
                        }
                    },
                    None => {},
                }
            }
            proof {
                assert forall|a: NodeRef, b: NodeRef|
                    out.contains_spec(a) && #[trigger] out.spec_children(a).contains(b) <==> (
                    block_edge(in_cfg, ranges, a.0 as int, b.0 as int) && (b.0 as int) < k2 as int
                        + 1 && (a.0 as int) < nb as int) by {
                    if out.contains_spec(a) && out.spec_children(a).contains(b) {
                        if (b.0 as int) == k2 as int {
                            let jp = choose|jp: int|
                                0 <= jp < pv.len() && owner_from(
                                    ranges,
                                    (#[trigger] pv[jp]).0 as int,
                                    0,
                                ) == Some(a.0 as int);
                            assert(pv.contains(pv[jp]));
                            assert(NodeRef(ranges[k2 as int].0 as usize) == NodeRef(
                                leaders@[k2 as int] as usize,
                            ));
                            assert(in_cfg.spec_parents(NodeRef(leaders@[k2 as int] as usize)).contains(
                                pv[jp],
                            ));
                            assert(block_edge(in_cfg, ranges, a.0 as int, b.0 as int));
                        }
                    } else {
                        if block_edge(in_cfg, ranges, a.0 as int, b.0 as int) && (b.0 as int)
                            == k2 as int && (a.0 as int) < nb as int {
                            let p = choose|p: NodeRef|
                                #[trigger] in_cfg.spec_parents(
                                    NodeRef(ranges[k2 as int].0 as usize),
                                ).contains(p) && owner_from(ranges, p.0 as int, 0) == Some(
                                    a.0 as int,
                                );
                            assert(pv.to_set().contains(p));
                            assert(pv.contains(p));
                            let jp = choose|jp: int| 0 <= jp < pv.len() && pv[jp] == p;
                            assert(owner_from(ranges, pv[jp].0 as int, 0) == Some(a.0 as int));
                        }
                    }
                }
            }
        } else {
            proof {
                assert forall|a: NodeRef, b: NodeRef|
                    out.contains_spec(a) && #[trigger] out.spec_children(a).contains(b) <==> (
                    block_edge(in_cfg, ranges, a.0 as int, b.0 as int) && (b.0 as int) < k2 as int
                        + 1 && (a.0 as int) < nb as int) by {
                    if !(out.contains_spec(a) && out.spec_children(a).contains(b)) {
                        if (b.0 as int) == k2 as int {
                            assert(!in_cfg.contains_spec(NodeRef(ranges[k2 as int].0 as usize)));
                            assert(!block_edge(in_cfg, ranges, a.0 as int, b.0 as int));
                        }
                    }
                }
            }
        }
    }
    proof {
        assert(partition_post(s, in_cfg, out)) by {
            assert(is_sorted_member_seq(in_cfg, m));
            assert(is_sorted_member_seq(in_cfg, sorted_members(in_cfg)));
            lemma_sorted_seq_unique(m, sorted_members(in_cfg));
            assert forall|k1: NodeRef, k2: NodeRef|
                out.contains_spec(k1) && #[trigger] out.spec_children(k1).contains(k2) <==> (
                block_edge(in_cfg, ranges, k1.0 as int, k2.0 as int) && (k1.0 as int)
                    < ranges.len()) by {
                if block_edge(in_cfg, ranges, k1.0 as int, k2.0 as int) {
                    assert((k2.0 as int) < ranges.len());
                }
            }
        }
    }
    out
}


/// The instruction slice a block-level node's metadata covers.
pub fn get_code_of_block<'a>(block: &crate::resolver::BlockMeta, code: &'a Code) -> (r: &'a [
    Instruction])
    requires
        block.instr_range.0 <= block.instr_range.1,
        block.instr_range.1 <= code.instructions@.len(),
    ensures
        r@ == code.instructions@.subrange(
            block.instr_range.0 as int,
            block.instr_range.1 as int,
        ),
{
    &code.instructions[block.instr_range.0..block.instr_range.1]
}

/// The spec-level outcome of resolving every block of a partition in
/// discovery order: the statement mirrors of each multi-instruction block,
/// or nothing if any block's range is malformed or its simulation fails.
pub open spec fn collect_blocks(
    s: Seq<Instruction>,
    t: NameTables,
    ranges: Seq<(int, int)>,
    k: int,
) -> Option<Seq<Seq<crate::resolver::StmtModel>>>
    decreases ranges.len() - k,
        when 0 <= k <= ranges.len()
{
    if k >= ranges.len() {
        Some(Seq::empty())
    } else {
        let pair = ranges[k];
        if !(0 <= pair.0 <= pair.1 <= s.len()) {
            None
        } else if pair.1 - pair.0 <= 1 {
            collect_blocks(s, t, ranges, k + 1)
        } else {
            match crate::resolver::sim_from(
                s.subrange(pair.0, pair.1),
                t,
                0,
                Seq::empty(),
                Seq::empty(),
            ) {
                crate::resolver::SimOutcome::Done(ms) => match collect_blocks(s, t, ranges, k + 1) {
                    Some(rest) => Some(seq![ms] + rest),
                    None => None,
                },
                _ => None,
            }
        }
    }
}

/// Whether block `j` of a partition gives the resolver no trouble: its
/// range is well-formed, and it either spans at most one instruction (the
/// resolver declines it) or its simulation runs to completion.
pub open spec fn block_ok(
    s: Seq<Instruction>,
    t: NameTables,
    ranges: Seq<(int, int)>,
    j: int,
) -> bool {
    let pair = ranges[j];
    &&& 0 <= pair.0 <= pair.1 <= s.len()
    &&& (pair.1 - pair.0 <= 1 || crate::resolver::sim_from(
        s.subrange(pair.0, pair.1),
        t,
        0,
        Seq::empty(),
        Seq::empty(),
    ) is Done)
}

/// Decompile a single code entry: builds its instruction-level graph,
/// partitions it into basic blocks, and collapses each multi-instruction
/// block into statements with the straight-line resolver, in block order.
///
/// Succeeds exactly when the entry offset and every reachable jump
/// resolve and every multi-instruction block simulates cleanly; the first
/// failure aborts the whole call with no partial output.
pub fn decompile_one(code: &Code, data: &NameTables) -> (r: Result<
    Vec<crate::ast::Block>,
    DecompileError,
>)
    requires
        total_size(code.instructions@) <= u32::MAX,
    ensures
        ({
            let s = code.instructions@;
            let off = code.execution_offset as int;
            match r {
                Ok(blocks) => exists|icfg: ControlFlowGraph<()>|
                    {
                        &&& #[trigger] cfg_build_post(s, off, icfg)
                        &&& {
                            let ranges = block_ranges(s, icfg, sorted_members(icfg));
                            match collect_blocks(s, *data, ranges, 0) {
                                Some(mss) => blocks@.len() == mss.len() && forall|j: int|
                                    0 <= j < mss.len() ==> crate::resolver::stmts_match(
                                        #[trigger] blocks@[j].0@,
                                        mss[j],
                                    ),
                                None => false,
                            }
                        }
                    },
                Err(e) => cfg_build_err(s, off, e) || exists|icfg: ControlFlowGraph<()>|
                    {
                        &&& #[trigger] cfg_build_post(s, off, icfg)
                        &&& {
                            let ranges = block_ranges(s, icfg, sorted_members(icfg));
                            exists|k: int|
                                {
                                    &&& 0 <= k < ranges.len()
                                    &&& forall|j: int| 0 <= j < k ==> block_ok(s, *data, ranges, j)
                                    &&& crate::resolver::resolve_failure(
                                        s,
                                        *data,
                                        NodeRef(k as usize),
                                        (#[trigger] ranges[k]).0,
                                        ranges[k].1,
                                        e,
                                    )
                                }
                        }
                    },
            }
        }),
{
    let ghost s = code.instructions@;
    let ghost off = code.execution_offset as int;
    let instr_cfg = match create_instr_cfg_from_code(code) {
        Ok(g) => g,
        Err(e) => {
            return Err(e);
        },
    };
    let ghost icfg = instr_cfg;
    let cfg = instr_cfg_to_block_cfg(code, instr_cfg);
    let ghost ranges = block_ranges(s, icfg, sorted_members(icfg));
    let mut out: Vec<crate::ast::Block> = Vec::new();
    let ghost mut mss: Seq<Seq<crate::resolver::StmtModel>> = Seq::empty();
    let nb = cfg.len();
    proof {
        assert(collect_blocks(s, *data, ranges, nb as int) == Some(Seq::<
            Seq<crate::resolver::StmtModel>,
        >::empty()));
        vstd::std_specs::vec::axiom_spec_len(&code.instructions);
        lemma_block_ranges_valid(s, icfg, sorted_members(icfg));
    }
    for i in 0..nb
        invariant
            s == code.instructions@,
            off == code.execution_offset as int,
            total_size(s) <= u32::MAX,
            cfg_build_post(s, off, icfg),
            partition_post(s, icfg, cfg),
            ranges == block_ranges(s, icfg, sorted_members(icfg)),
            nb == cfg.spec_len(),
            nb == ranges.len(),
            out@.len() == mss.len(),
            forall|k: int|
                0 <= k < ranges.len() ==> {
                    let range = #[trigger] ranges[k];
                    0 <= range.0 < range.1 <= s.len()
                },
            forall|j: int|
                0 <= j < mss.len() ==> crate::resolver::stmts_match(
                    #[trigger] out@[j].0@,
                    mss[j],
                ),
            forall|j: int| 0 <= j < i ==> block_ok(s, *data, ranges, j),
            ({
                match collect_blocks(s, *data, ranges, i as int) {
                    Some(rest) => collect_blocks(s, *data, ranges, 0) == Some(mss + rest),
                    None => collect_blocks(s, *data, ranges, 0) is None,
                }
            }),
    {
        let node = NodeRef(i);
        proof {
            assert(cfg.spec_meta(node).instr_range.0 <= cfg.spec_meta(node).instr_range.1);
        }
        let ghost mss0 = mss;
        match crate::resolver::StraightLineResolver::try_resolve(&cfg, code, data, node) {
            Ok(Some(res)) => {
                match res.merged_into {
                    crate::resolver::ResolveState::Resolved(blk) => {
                        proof {
                            let ms = crate::resolver::sim_from(
                                s.subrange(ranges[i as int].0, ranges[i as int].1),
                                *data,
                                0,
                                Seq::empty(),
                                Seq::empty(),
                            )->Done_0;
                            mss = mss.push(ms);
                            assert(mss0 + (seq![ms] + collect_blocks(
                                s,
                                *data,
                                ranges,
                                i + 1,
                            )->Some_0) =~= mss + collect_blocks(s, *data, ranges, i + 1)->Some_0);
                        }
                        out.push(blk);
                    },
                    crate::resolver::ResolveState::Unresolved => {
                        proof {
                            assert(false);
                        }
                    },
                }
            },
            Ok(None) => {},
            Err(e) => {
                proof {
                    assert(cfg_build_post(s, off, icfg));
                    assert(crate::resolver::resolve_failure(
                        s,
                        *data,
                        node,
                        ranges[i as int].0,
                        ranges[i as int].1,
                        e,
                    ));
                }
                return Err(e);
            },
        }
    }
    proof {
        assert(mss + Seq::<Seq<crate::resolver::StmtModel>>::empty() =~= mss);
    }
    Ok(out)
}


proof fn lemma_path_covered(s: Seq<Instruction>, off: int, cfg: ControlFlowGraph<()>, p: Seq<int>)
    requires
        s.len() <= usize::MAX,
        cfg_build_post(s, off, cfg),
        boundary_index(s, off) < s.len(),
        p.len() >= 1,
        p[0] == boundary_index(s, off),
        path_ok(s, p),
        p.last() < s.len(),
    ensures
        cfg.contains_spec(NodeRef(p.last() as usize)),
    decreases p.len(),
{
    if p.len() == 1 {
    } else {
        let q = p.drop_last();
        assert(q.last() == p[p.len() - 2]);
        assert(successor_ok(s, p[p.len() - 2], p.last()));
        assert forall|k: int| 0 <= k < q.len() - 1 implies successor_ok(s, #[trigger] q[k], q[k + 1]) by {
            assert(q[k] == p[k] && q[k + 1] == p[k + 1]);
        }
        assert(path_ok(s, q));
        lemma_path_covered(s, off, cfg, q);
        assert(cfg.contains_spec(NodeRef(q.last() as usize)));
        assert(NodeRef(q.last() as usize).0 as int == q.last());
        assert(successor_ok(s, NodeRef(q.last() as usize).0 as int, p.last()));
    }
}

/// A built instruction graph holds a node for every instruction index
/// reachable from the entry: together with the soundness clauses of
/// [`cfg_build_post`], the graph's members are exactly the reachable
/// indices.
pub proof fn lemma_cfg_covers_reachable(
    s: Seq<Instruction>,
    off: int,
    cfg: ControlFlowGraph<()>,
    n: int,
)
    requires
        s.len() <= usize::MAX,
        cfg_build_post(s, off, cfg),
        boundary_index(s, off) < s.len(),
        reachable(s, boundary_index(s, off), n),
        0 <= n < s.len(),
    ensures
        cfg.contains_spec(NodeRef(n as usize)),
{
    let p = choose|p: Seq<int>|
        p.len() >= 1 && p[0] == boundary_index(s, off) && p.last() == n && #[trigger] path_ok(
            s,
            p,
        );
    lemma_path_covered(s, off, cfg, p);
}



proof fn lemma_trailer_indices_from_members(
    s: Seq<Instruction>,
    g: ControlFlowGraph<()>,
    m: Seq<NodeRef>,
)
    ensures
        forall|i: int|
            0 <= i < trailer_indices(s, g, m).len() ==> exists|j: int|
                0 <= j < m.len() && #[trigger] trailer_indices(s, g, m)[i] == m[j].0,
    decreases m.len(),
{
    if m.len() > 0 {
        lemma_trailer_indices_from_members(s, g, m.drop_first());
        let ts = trailer_indices(s, g, m);
        let rest = trailer_indices(s, g, m.drop_first());
        assert forall|i: int|
            0 <= i < ts.len() implies exists|j: int|
            0 <= j < m.len() && #[trigger] ts[i] == m[j].0 by {
            if is_trailer_node(s, g, m[0]) {
                if i == 0 {
                    assert(ts[0] == m[0].0);
                } else {
                    assert(ts[i] == rest[i - 1]);
                    let j0 = choose|j: int| 0 <= j < m.drop_first().len() && rest[i - 1] == m.drop_first()[j].0;
                    assert(ts[i] == m[j0 + 1].0);
                }
            } else {
                assert(ts[i] == rest[i]);
                let j0 = choose|j: int| 0 <= j < m.drop_first().len() && rest[i] == m.drop_first()[j].0;
                assert(ts[i] == m[j0 + 1].0);
            }
        }
    }
}

proof fn lemma_trailer_indices_ascending(
    s: Seq<Instruction>,
    g: ControlFlowGraph<()>,
    m: Seq<NodeRef>,
)
    requires
        forall|i: int, j: int| 0 <= i < j < m.len() ==> m[i].0 < m[j].0,
    ensures
        forall|i: int, j: int|
            0 <= i < j < trailer_indices(s, g, m).len() ==> trailer_indices(s, g, m)[i]
                < trailer_indices(s, g, m)[j],
    decreases m.len(),
{
    if m.len() > 0 {
        lemma_trailer_indices_ascending(s, g, m.drop_first());
        lemma_trailer_indices_from_members(s, g, m.drop_first());
        let ts = trailer_indices(s, g, m);
        let rest = trailer_indices(s, g, m.drop_first());
        assert forall|i: int, j: int| 0 <= i < j < ts.len() implies ts[i] < ts[j] by {
            if is_trailer_node(s, g, m[0]) {
                if i == 0 {
                    assert(ts[0] == m[0].0);
                    assert(ts[j] == rest[j - 1]);
                    let j0 = choose|q: int|
                        0 <= q < m.drop_first().len() && rest[j - 1] == m.drop_first()[q].0;
                    assert(ts[j] == m[j0 + 1].0);
                    assert(m[0].0 < m[j0 + 1].0);
                } else {
                    assert(ts[i] == rest[i - 1] && ts[j] == rest[j - 1]);
                }
            } else {
                assert(ts[i] == rest[i] && ts[j] == rest[j]);
            }
        }
    }
}

proof fn lemma_leader_tail_empty_when_high(
    s: Seq<Instruction>,
    g: ControlFlowGraph<()>,
    m: Seq<NodeRef>,
)
    requires
        forall|j: int| 0 <= j < m.len() ==> (m[j].0 as int) >= g.spec_len() - 1,
    ensures
        leader_tail_indices(s, g, m).len() == 0,
    decreases m.len(),
{
    if m.len() > 0 {
        assert((m[0].0 as int) >= g.spec_len() - 1);
        assert forall|j: int|
            0 <= j < m.drop_first().len() implies (m.drop_first()[j].0 as int) >= g.spec_len()
            - 1 by {
            assert(m.drop_first()[j] == m[j + 1]);
        }
        lemma_leader_tail_empty_when_high(s, g, m.drop_first());
    }
}

proof fn lemma_leader_tail_pairs(s: Seq<Instruction>, g: ControlFlowGraph<()>, m: Seq<NodeRef>)
    requires
        forall|i: int, j: int| 0 <= i < j < m.len() ==> m[i].0 < m[j].0,
    ensures
        leader_tail_indices(s, g, m).len() <= trailer_indices(s, g, m).len(),
        forall|k: int|
            0 <= k < leader_tail_indices(s, g, m).len() ==> leader_tail_indices(s, g, m)[k] as int
                == trailer_indices(s, g, m)[k] + 1,
    decreases m.len(),
{
    if m.len() > 0 {
        lemma_leader_tail_pairs(s, g, m.drop_first());
        let ls = leader_tail_indices(s, g, m);
        let ts = trailer_indices(s, g, m);
        let ls_rest = leader_tail_indices(s, g, m.drop_first());
        let ts_rest = trailer_indices(s, g, m.drop_first());
        if is_trailer_node(s, g, m[0]) {
            if (m[0].0 as int) < g.spec_len() - 1 {
                assert forall|k: int|
                    0 <= k < ls.len() implies ls[k] as int == ts[k] + 1 by {
                    if k > 0 {
                        assert(ls[k] == ls_rest[k - 1] && ts[k] == ts_rest[k - 1]);
                    }
                }
            } else {
                assert forall|j: int|
                    0 <= j < m.drop_first().len() implies (m.drop_first()[j].0 as int)
                    >= g.spec_len() - 1 by {
                    assert(m.drop_first()[j] == m[j + 1]);
                    assert(m[0].0 < m[j + 1].0);
                }
                lemma_leader_tail_empty_when_high(s, g, m.drop_first());
                assert(ls.len() == 0);
            }
        } else {
            assert(ls == ls_rest && ts == ts_rest);
        }
    }
}

/// The half-open ranges of a partition are well-formed: each starts at or
/// after instruction 0, ends after it starts, and ends within the stream.
pub proof fn lemma_block_ranges_valid(
    s: Seq<Instruction>,
    g: ControlFlowGraph<()>,
    m: Seq<NodeRef>,
)
    requires
        s.len() <= usize::MAX,
        g.wf(),
        is_sorted_member_seq(g, m),
        forall|n: NodeRef| #[trigger] g.contains_spec(n) ==> n.0 < s.len(),
    ensures
        forall|k: int|
            0 <= k < block_ranges(s, g, m).len() ==> {
                let range = #[trigger] block_ranges(s, g, m)[k];
                0 <= range.0 < range.1 <= s.len()
            },
{
    let ts = trailer_indices(s, g, m);
    let ls = leader_indices(s, g, m);
    let ranges = block_ranges(s, g, m);
    lemma_trailer_indices_from_members(s, g, m);
    lemma_trailer_indices_ascending(s, g, m);
    lemma_leader_tail_pairs(s, g, m);
    assert forall|i: int| 0 <= i < ts.len() implies ts[i] < s.len() by {
        let j = choose|j: int| 0 <= j < m.len() && ts[i] == m[j].0;
        assert(m.contains(m[j]));
        assert(g.contains_spec(m[j]));
    }
    assert forall|k: int|
        0 <= k < ranges.len() implies {
            let range = #[trigger] ranges[k];
            0 <= range.0 < range.1 <= s.len()
        } by {
        if k == 0 {
            assert(ls[0] == 0);
        } else {
            assert(ls[k] == leader_tail_indices(s, g, m)[k - 1]);
            assert(ls[k] as int == ts[k - 1] + 1);
            assert(ts[k - 1] < ts[k]);
        }
    }
}

} // verus!
