//! The function and basic-block decomposer: a function is a view over the
//! workspace, computed on demand; its basic blocks come back in ascending
//! address order, and each block decodes into a contiguous instruction run
//! that covers the block exactly.

use vstd::prelude::*;

use crate::workspace::{blocks_of_function, Instruction, Workspace};

verus! {

/// A failure to decompose a basic block into instructions.
#[derive(Clone, Copy, PartialEq, Eq, Structural, Debug)]
pub enum DecomposeError {
    /// An address inside the block does not decode to an instruction.
    Undecodable,
    /// The final decoded instruction would overrun the block boundary: a
    /// decoder/boundary inconsistency, reported rather than truncated.
    BoundaryOverrun,
}

/// A contiguous, single-entry single-exit instruction range within a
/// function: (start address, size, owning function address).
#[derive(Clone, Copy, PartialEq, Eq, Structural, Debug)]
pub struct BasicBlock {
    pub virtual_address: i32,
    pub size: i32,
    pub fva: i32,
}

/// The (start, size, owner) tuples of a block list, in order.
pub open spec fn block_tuples(s: Seq<BasicBlock>) -> Seq<(i32, i32, i32)> {
    s.map_values(|b: BasicBlock| (b.virtual_address, b.size, b.fva))
}

/// The instruction run that exactly covers `size` bytes starting at `va`:
/// decode at the current offset, advance by the decoded size, and repeat
/// until the cumulative offset reaches `size`. `None` when an address does
/// not decode or the final instruction would overrun the boundary.
pub open spec fn decode_chain(ws: Workspace, va: i32, size: i32) -> Option<Seq<Instruction>>
    decreases size,
{
    if size <= 0 {
        if size == 0 {
            Some(Seq::empty())
        } else {
            None
        }
    } else {
        match ws.decode_spec(va) {
            None => None,
            Some(inst) => {
                if inst.size < 1 || inst.size > size {
                    None
                } else {
                    match decode_chain(ws, (va + inst.size) as i32, (size - inst.size) as i32) {
                        None => None,
                        Some(rest) => Some(seq![inst] + rest),
                    }
                }
            },
        }
    }
}

impl BasicBlock {
    /// A basic block of `size` bytes at `va`, owned by the function at
    /// `fva`.
    pub fn new(va: i32, size: i32, fva: i32) -> (r: BasicBlock)
        ensures
            r == (BasicBlock { virtual_address: va, size, fva }),
    {
        BasicBlock { virtual_address: va, size, fva }
    }

    /// Decode the block into its linear instruction sequence: decode at
    /// the current offset and advance by the decoded size until the
    /// cumulative offset reaches the block's size. An address that does
    /// not decode, or a final instruction that would overrun the block
    /// boundary, is reported as an error, never silently truncated.
    pub fn instructions(&self, workspace: &Workspace) -> (r: Result<Vec<Instruction>, DecomposeError>)
        requires
            workspace.wf(),
            self.size >= 0,
            self.virtual_address + self.size <= i32::MAX,
        ensures
            match r {
                Ok(v) => decode_chain(*workspace, self.virtual_address, self.size) == Some(v@),
                Err(_) => decode_chain(*workspace, self.virtual_address, self.size) is None,
            },
    {
        let ghost gws = *workspace;
        let start = self.virtual_address;
        let total = self.size;
        let mut out: Vec<Instruction> = Vec::new();
        let mut va = start;
        let mut remaining = total;
        while remaining > 0
            invariant
                gws == *workspace,
                gws.wf(),
                start == self.virtual_address,
                total == self.size,
                0 <= remaining <= total,
                va == start + total - remaining,
                va + remaining <= i32::MAX,
                match decode_chain(gws, va, remaining) {
                    Some(rest) => decode_chain(gws, start, total) == Some(out@ + rest),
                    None => decode_chain(gws, start, total) is None,
                },
            decreases remaining,
        {
            match workspace.decode_at(va) {
                None => {
                    proof {
                        assert(decode_chain(gws, va, remaining) is None);
                    }
                    return Err(DecomposeError::Undecodable);
                },
                Some(inst) => {
                    if inst.size < 1 || inst.size > remaining {
                        proof {
                            assert(decode_chain(gws, va, remaining) is None);
                        }
                        return Err(DecomposeError::BoundaryOverrun);
                    }
                    let ghost pre_out = out@;
                    out.push(inst);
                    proof {
                        let rest = decode_chain(gws, (va + inst.size) as i32, (remaining
                            - inst.size) as i32);
                        if rest is Some {
                            assert(pre_out + (seq![inst] + rest->0) =~= out@ + rest->0);
                        }
                    }
                    va = va + inst.size;
                    remaining = remaining - inst.size;
                },
            }
        }
        proof {
            assert(decode_chain(gws, va, 0) == Some(Seq::<Instruction>::empty()));
            assert(out@ + Seq::<Instruction>::empty() =~= out@);
        }
        Ok(out)
    }
}

/// A function identified by its start address within a workspace; it does
/// not own instructions — they are computed on demand from the workspace.
pub struct Function {
    pub workspace: Workspace,
    pub virtual_address: i32,
}

impl Function {
    /// The function starting at `va` in `workspace`.
    pub fn new(workspace: Workspace, va: i32) -> (r: Function)
        ensures
            r.workspace == workspace,
            r.virtual_address == va,
    {
        Function { workspace, virtual_address: va }
    }

    /// The function's basic blocks, in strictly ascending start-address
    /// order: a rearrangement of exactly the workspace's blocks owned by
    /// this function. Block starts are unique within one function, so the
    /// strict order fixes the result completely; repeated calls on an
    /// unchanged workspace return the same vector.
    pub fn basic_blocks(&self) -> (r: Vec<BasicBlock>)
        requires
            forall|i: int, j: int|
                0 <= i < j < blocks_of_function(
                    self.workspace.codeblocks@,
                    self.virtual_address,
                ).len() ==> (#[trigger] blocks_of_function(
                    self.workspace.codeblocks@,
                    self.virtual_address,
                )[i]).0 != (#[trigger] blocks_of_function(
                    self.workspace.codeblocks@,
                    self.virtual_address,
                )[j]).0,
        ensures
            forall|i: int, j: int|
                0 <= i < j < r@.len() ==> (#[trigger] r@[i]).virtual_address < (
                #[trigger] r@[j]).virtual_address,
            block_tuples(r@).to_multiset() == blocks_of_function(
                self.workspace.codeblocks@,
                self.virtual_address,
            ).to_multiset(),
    {
        broadcast use vstd::seq_lib::group_to_multiset_ensures;

        let mut blocks = self.workspace.get_function_blocks(self.virtual_address);
        let ghost orig = blocks@;
        let mut sorted: Vec<(i32, i32, i32)> = Vec::new();
        proof {
            assert(sorted@.to_multiset().add(blocks@.to_multiset()) =~= orig.to_multiset());
        }
        while blocks.len() > 0
            invariant
                sorted@.to_multiset().add(blocks@.to_multiset()) == orig.to_multiset(),
                forall|i: int, j: int|
                    0 <= i < j < blocks@.len() ==> (#[trigger] blocks@[i]).0 != (
                    #[trigger] blocks@[j]).0,
                forall|i: int, j: int|
                    0 <= i < j < sorted@.len() ==> (#[trigger] sorted@[i]).0 < (
                    #[trigger] sorted@[j]).0,
                forall|i: int, j: int|
                    0 <= i < sorted@.len() && 0 <= j < blocks@.len() ==> (#[trigger] sorted@[i]).0
                        < (#[trigger] blocks@[j]).0,
            decreases blocks@.len(),
        {
            let mut min_idx: usize = 0;
            let mut t: usize = 1;
            while t < blocks.len()
                invariant
                    0 <= min_idx < blocks@.len(),
                    min_idx < t <= blocks@.len() || (t <= blocks@.len() && min_idx == 0),
                    forall|j: int| 0 <= j < t ==> (#[trigger] blocks@[j]).0 >= blocks@[min_idx as int].0,
                decreases blocks@.len() - t,
            {
                if blocks[t].0 < blocks[min_idx].0 {
                    min_idx = t;
                }
                t += 1;
            }
            let ghost pre_blocks = blocks@;
            let ghost pre_sorted = sorted@;
            let m = blocks.remove(min_idx);
            sorted.push(m);
            proof {
                broadcast use vstd::seq_lib::group_to_multiset_ensures;

                assert(m == pre_blocks[min_idx as int]);
                assert(blocks@ == pre_blocks.remove(min_idx as int));
                assert(pre_blocks.remove(min_idx as int).to_multiset() == pre_blocks.to_multiset()
                    .remove(m));
                assert(sorted@ == pre_sorted.push(m));
                assert(pre_sorted.push(m).to_multiset() =~= pre_sorted.to_multiset().insert(m));
                assert(pre_blocks.contains(m));
                assert(pre_blocks.to_multiset().count(m) > 0);
                assert(sorted@.to_multiset().add(blocks@.to_multiset()) =~= pre_sorted.to_multiset(
                ).add(pre_blocks.to_multiset()));
                assert forall|j: int| 0 <= j < blocks@.len() implies m.0 < (
                #[trigger] blocks@[j]).0 by {
                    if j < min_idx {
                        assert(blocks@[j] == pre_blocks[j]);
                        assert(pre_blocks[j].0 != pre_blocks[min_idx as int].0);
                    } else {
                        assert(blocks@[j] == pre_blocks[j + 1]);
                        assert(pre_blocks[min_idx as int].0 != pre_blocks[j + 1].0);
                    }
                }
                assert forall|t: int, u: int|
                    0 <= t < u < blocks@.len() implies (#[trigger] blocks@[t]).0 != (
                #[trigger] blocks@[u]).0 by {
                    if t < min_idx && u < min_idx {
                    } else if t < min_idx {
                        assert(blocks@[u] == pre_blocks[u + 1]);
                    } else {
                        assert(blocks@[t] == pre_blocks[t + 1]);
                        assert(blocks@[u] == pre_blocks[u + 1]);
                    }
                }
            }
        }
        let mut r: Vec<BasicBlock> = Vec::new();
        let mut i: usize = 0;
        while i < sorted.len()
            invariant
                0 <= i <= sorted@.len(),
                r@.len() == i,
                block_tuples(r@) == sorted@.take(i as int),
                forall|a: int, b: int|
                    0 <= a < b < sorted@.len() ==> (#[trigger] sorted@[a]).0 < (
                    #[trigger] sorted@[b]).0,
                forall|a: int|
                    0 <= a < i ==> (#[trigger] r@[a]).virtual_address == sorted@[a].0,
            decreases sorted@.len() - i,
        {
            let (bva, bsize, bfva) = sorted[i];
            let ghost pre_r = r@;
            r.push(BasicBlock { virtual_address: bva, size: bsize, fva: bfva });
            proof {
                assert(block_tuples(r@) =~= block_tuples(pre_r).push((bva, bsize, bfva)));
                assert(sorted@.take(i + 1) =~= sorted@.take(i as int).push(sorted@[i as int]));
            }
            i += 1;
        }
        proof {
            assert(sorted@.take(sorted@.len() as int) == sorted@);
            assert(block_tuples(r@) == sorted@);
        }
        r
    }
}

} // verus!
