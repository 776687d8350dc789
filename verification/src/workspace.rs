//! The analysis workspace model: an addressable context holding memory maps,
//! entry points, per-file metadata, the catalogue of known function addresses,
//! and the mutable classification result sets.

use vstd::prelude::*;

verus! {

/// Memory permission bits of a memory map.
pub const MM_EXEC: i32 = 0x1;

pub const MM_WRITE: i32 = 0x2;

pub const MM_READ: i32 = 0x4;

pub const MM_RWX: i32 = MM_READ | MM_WRITE | MM_EXEC;

/// Cross-reference kind: a code branch or call edge.
pub const REF_CODE: i32 = 1;

/// Branch flag: the target is a procedure (a call).
pub const BR_PROC: i32 = 1;

/// Branch flag: the branch is conditional.
pub const BR_COND: i32 = 2;

/// Branch flag: the target is dereferenced into the program counter.
pub const BR_DEREF: i32 = 4;

/// Branch flag: the target is the base of a branch table.
pub const BR_TABLE: i32 = 8;

/// Branch flag: the edge is a fall-through to the next sequential address.
pub const BR_FALL: i32 = 16;

/// The (target, flags) pairs of the edges in `edges` whose source is `va`,
/// in order.
pub open spec fn branches_of_edges(edges: Seq<(i32, i32, i32)>, va: i32) -> Seq<(i32, i32)>
    decreases edges.len(),
{
    if edges.len() == 0 {
        Seq::empty()
    } else {
        let rest = branches_of_edges(edges.drop_last(), va);
        if edges.last().0 == va {
            rest.push((edges.last().1, edges.last().2))
        } else {
            rest
        }
    }
}

/// The (block start, size, owning function) tuples in `blocks` owned by the
/// function at `fva`, in order.
pub open spec fn blocks_of_function(blocks: Seq<(i32, i32, i32)>, fva: i32) -> Seq<(i32, i32, i32)>
    decreases blocks.len(),
{
    if blocks.len() == 0 {
        Seq::empty()
    } else {
        let rest = blocks_of_function(blocks.drop_last(), fva);
        if blocks.last().2 == fva {
            rest.push(blocks.last())
        } else {
            rest
        }
    }
}

/// The name of the first segment in `segments` that covers `va`, if any.
pub open spec fn covering_file_spec(segments: Seq<(i32, i32, String)>, va: i32) -> Option<Seq<char>>
    decreases segments.len(),
{
    if segments.len() == 0 {
        None
    } else if segments.first().0 <= va && va < segments.first().0 + segments.first().1 {
        Some(segments.first().2@)
    } else {
        covering_file_spec(segments.drop_first(), va)
    }
}

/// The image base of the first entry in `entries` named `name`, if any.
pub open spec fn imagebase_lookup_spec(entries: Seq<(String, i32)>, name: Seq<char>) -> Option<i32>
    decreases entries.len(),
{
    if entries.len() == 0 {
        None
    } else if entries.first().0@ == name {
        Some(entries.first().1)
    } else {
        imagebase_lookup_spec(entries.drop_first(), name)
    }
}

/// One contiguous byte range loaded at a base address with permission flags.
#[derive(Clone)]
pub struct MemoryMap {
    pub va: i32,
    pub perms: i32,
    pub name: String,
    pub bytes: Vec<u8>,
}

/// A decoded instruction at a virtual address: its size in bytes, whether it
/// carries a repeating prefix, and whether it transfers control
/// unconditionally (in which case it has no fall-through edge). Its explicit
/// branch edges live in the workspace's `branch_edges`, keyed by this
/// address.
#[derive(Clone, Copy, PartialEq, Eq, Structural, Debug)]
pub struct Instruction {
    pub va: i32,
    pub size: i32,
    pub rep_prefix: bool,
    pub no_fallthrough: bool,
}

/// The analysis workspace. The classifier mutates `library_functions` and
/// `unclassified_functions`; the decomposer and the driver only read.
#[derive(Clone)]
pub struct Workspace {
    pub sample_path: String,
    pub architecture: Option<String>,
    pub platform: Option<String>,
    pub format: Option<String>,
    pub storage_name: Option<String>,
    pub memory_maps: Vec<MemoryMap>,
    pub entry_points: Vec<i32>,
    /// The catalogue of known function addresses, each with its symbolic name.
    pub function_catalogue: Vec<(String, i32)>,
    /// Functions recognised as known library code: (name, matched size) pairs.
    pub library_functions: Vec<(String, i32)>,
    /// The residual catalogue entries after the last classification run.
    pub unclassified_functions: Vec<(String, i32)>,
    /// Virtual addresses of known locations.
    pub locations: Vec<i32>,
    /// Cross-references: (from, to, kind, flags).
    pub xrefs: Vec<(i32, i32, i32, i32)>,
    /// The decoded view of the sample: at most one instruction per address.
    pub instructions: Vec<Instruction>,
    /// Explicit branch edges of decoded instructions: (source, target, flags).
    pub branch_edges: Vec<(i32, i32, i32)>,
    /// Basic blocks: (block start, size, owning function address).
    pub codeblocks: Vec<(i32, i32, i32)>,
    /// Loaded files: (base address, size, file name).
    pub segments: Vec<(i32, i32, String)>,
    /// Per-file image base: (file name, image base).
    pub file_imagebase: Vec<(String, i32)>,
}

impl Workspace {
    /// The decoded instruction the model holds at `va`, if any.
    pub open spec fn decode_spec(self, va: i32) -> Option<Instruction> {
        if exists|i: int|
            0 <= i < self.instructions@.len() && #[trigger] self.instructions@[i].va == va {
            let i = choose|i: int|
                0 <= i < self.instructions@.len() && #[trigger] self.instructions@[i].va == va;
            Some(self.instructions@[i])
        } else {
            None
        }
    }

    /// The (target, flags) branch pairs of the instruction at `va`.
    pub open spec fn branches_spec(self, va: i32) -> Seq<(i32, i32)> {
        branches_of_edges(self.branch_edges@, va)
    }

    /// Whether `va` is a known location.
    pub open spec fn has_location_spec(self, va: i32) -> bool {
        self.locations@.contains(va)
    }

    /// Well-formedness: catalogue names are distinct, decoded instructions
    /// are keyed by their own address, are at least one byte long, and end
    /// within the address space.
    pub open spec fn wf(self) -> bool {
        &&& forall|i: int, j: int|
            0 <= i < j < self.function_catalogue@.len() ==> (
            #[trigger] self.function_catalogue@[i]).0@ != (
            #[trigger] self.function_catalogue@[j]).0@
        &&& forall|i: int, j: int|
            0 <= i < j < self.instructions@.len() ==> (#[trigger] self.instructions@[i]).va != (
            #[trigger] self.instructions@[j]).va
        &&& forall|i: int|
            0 <= i < self.instructions@.len() ==> 1 <= (#[trigger] self.instructions@[i]).size
                && self.instructions@[i].va + self.instructions@[i].size <= i32::MAX
    }

    /// An empty workspace with no maps, no catalogue and no results.
    pub fn new() -> (ws: Workspace)
        ensures
            ws.memory_maps@.len() == 0,
            ws.entry_points@.len() == 0,
            ws.function_catalogue@.len() == 0,
            ws.library_functions@.len() == 0,
            ws.unclassified_functions@.len() == 0,
            ws.locations@.len() == 0,
            ws.xrefs@.len() == 0,
            ws.instructions@.len() == 0,
            ws.branch_edges@.len() == 0,
            ws.codeblocks@.len() == 0,
            ws.segments@.len() == 0,
            ws.file_imagebase@.len() == 0,
            ws.architecture is None,
            ws.platform is None,
            ws.format is None,
            ws.storage_name is None,
            ws.sample_path@.len() == 0,
            ws.wf(),
    {
        Workspace {
            sample_path: String::new(),
            architecture: None,
            platform: None,
            format: None,
            storage_name: None,
            memory_maps: Vec::new(),
            entry_points: Vec::new(),
            function_catalogue: Vec::new(),
            library_functions: Vec::new(),
            unclassified_functions: Vec::new(),
            locations: Vec::new(),
            xrefs: Vec::new(),
            instructions: Vec::new(),
            branch_edges: Vec::new(),
            codeblocks: Vec::new(),
            segments: Vec::new(),
            file_imagebase: Vec::new(),
        }
    }

    pub fn set_architecture(&mut self, value: Option<String>)
        ensures
            *final(self) == (Workspace { architecture: value, ..*old(self) }),
    {
        self.architecture = value;
    }

    pub fn set_platform(&mut self, value: Option<String>)
        ensures
            *final(self) == (Workspace { platform: value, ..*old(self) }),
    {
        self.platform = value;
    }

    pub fn set_format(&mut self, value: Option<String>)
        ensures
            *final(self) == (Workspace { format: value, ..*old(self) }),
    {
        self.format = value;
    }

    pub fn set_storage_name(&mut self, value: Option<String>)
        ensures
            *final(self) == (Workspace { storage_name: value, ..*old(self) }),
    {
        self.storage_name = value;
    }

    /// Register a byte range at a base address with permission flags.
    pub fn add_memory_map(&mut self, va: i32, perms: i32, name: String, bytes: Vec<u8>)
        ensures
            final(self).memory_maps@ == old(self).memory_maps@.push(
                MemoryMap { va, perms, name, bytes },
            ),
            *final(self) == (Workspace {
                memory_maps: final(self).memory_maps,
                ..*old(self)
            }),
    {
        self.memory_maps.push(MemoryMap { va, perms, name, bytes });
    }

    /// Register an entry point.
    pub fn add_entry_point(&mut self, va: i32)
        ensures
            final(self).entry_points@ == old(self).entry_points@.push(va),
            *final(self) == (Workspace {
                entry_points: final(self).entry_points,
                ..*old(self)
            }),
    {
        self.entry_points.push(va);
    }

    /// Whether `va` is a known location.
    pub fn has_location(&self, va: i32) -> (r: bool)
        ensures
            r == self.has_location_spec(va),
    {
        let mut i: usize = 0;
        while i < self.locations.len()
            invariant
                0 <= i <= self.locations@.len(),
                forall|j: int| 0 <= j < i ==> self.locations@[j] != va,
            decreases self.locations@.len() - i,
        {
            if self.locations[i] == va {
                return true;
            }
            i += 1;
        }
        false
    }

    /// The decoded instruction at `va`, if the model holds one.
    pub fn decode_at(&self, va: i32) -> (r: Option<Instruction>)
        requires
            self.wf(),
        ensures
            r == self.decode_spec(va),
    {
        let mut i: usize = 0;
        while i < self.instructions.len()
            invariant
                self.wf(),
                0 <= i <= self.instructions@.len(),
                forall|j: int| 0 <= j < i ==> (#[trigger] self.instructions@[j]).va != va,
            decreases self.instructions@.len() - i,
        {
            if self.instructions[i].va == va {
                proof {
                    assert forall|j: int|
                        0 <= j < self.instructions@.len() && #[trigger] self.instructions@[j].va
                            == va implies j == i as int by {
                        if j < i as int {
                            assert((#[trigger] self.instructions@[j]).va != (
                            #[trigger] self.instructions@[i as int]).va);
                        } else if j > i as int {
                            assert((#[trigger] self.instructions@[i as int]).va != (
                            #[trigger] self.instructions@[j]).va);
                        }
                    }
                }
                return Some(self.instructions[i]);
            }
            i += 1;
        }
        None
    }

    /// The registered entry points, in registration order.
    pub fn get_entry_points(&self) -> (r: Vec<i32>)
        ensures
            r@ == self.entry_points@,
    {
        let mut r: Vec<i32> = Vec::new();
        let mut i: usize = 0;
        while i < self.entry_points.len()
            invariant
                0 <= i <= self.entry_points@.len(),
                r@ == self.entry_points@.take(i as int),
            decreases self.entry_points@.len() - i,
        {
            r.push(self.entry_points[i]);
            proof {
                assert(self.entry_points@.take(i + 1) == self.entry_points@.take(i as int).push(
                    self.entry_points@[i as int],
                ));
            }
            i += 1;
        }
        proof {
            assert(self.entry_points@.take(self.entry_points@.len() as int) == self.entry_points@);
        }
        r
    }

    /// The (target, flags) branch pairs of the instruction at `va`.
    pub fn get_branches(&self, va: i32) -> (r: Vec<(i32, i32)>)
        ensures
            r@ == self.branches_spec(va),
    {
        let mut r: Vec<(i32, i32)> = Vec::new();
        let mut i: usize = 0;
        while i < self.branch_edges.len()
            invariant
                0 <= i <= self.branch_edges@.len(),
                r@ == branches_of_edges(self.branch_edges@.take(i as int), va),
            decreases self.branch_edges@.len() - i,
        {
            let e = self.branch_edges[i];
            if e.0 == va {
                r.push((e.1, e.2));
            }
            proof {
                let pre = self.branch_edges@.take(i as int);
                let cur = self.branch_edges@[i as int];
                assert(self.branch_edges@.take(i + 1).drop_last() == pre);
                assert(self.branch_edges@.take(i + 1).last() == cur);
            }
            i += 1;
        }
        proof {
            assert(self.branch_edges@.take(self.branch_edges@.len() as int) == self.branch_edges@);
        }
        r
    }

    /// The (block start, size, owning function) tuples of one function, in
    /// the order the workspace holds them.
    pub fn get_function_blocks(&self, func_va: i32) -> (r: Vec<(i32, i32, i32)>)
        ensures
            r@ == blocks_of_function(self.codeblocks@, func_va),
    {
        let mut r: Vec<(i32, i32, i32)> = Vec::new();
        let mut i: usize = 0;
        while i < self.codeblocks.len()
            invariant
                0 <= i <= self.codeblocks@.len(),
                r@ == blocks_of_function(self.codeblocks@.take(i as int), func_va),
            decreases self.codeblocks@.len() - i,
        {
            proof {
                assert(self.codeblocks@.take(i + 1).drop_last() == self.codeblocks@.take(i as int));
                assert(self.codeblocks@.take(i + 1).last() == self.codeblocks@[i as int]);
            }
            let b = self.codeblocks[i];
            if b.2 == func_va {
                r.push(b);
            }
            i += 1;
        }
        proof {
            assert(self.codeblocks@.take(self.codeblocks@.len() as int) == self.codeblocks@);
        }
        r
    }

    /// The cross-references whose target is `va`.
    pub fn get_xrefs_to(&self, va: i32) -> (r: Vec<(i32, i32, i32, i32)>)
        ensures
            r@ == self.xrefs@.filter(|x: (i32, i32, i32, i32)| x.1 == va),
    {
        let mut r: Vec<(i32, i32, i32, i32)> = Vec::new();
        let mut i: usize = 0;
        while i < self.xrefs.len()
            invariant
                0 <= i <= self.xrefs@.len(),
                r@ == self.xrefs@.take(i as int).filter(|x: (i32, i32, i32, i32)| x.1 == va),
            decreases self.xrefs@.len() - i,
        {
            proof {
                reveal(Seq::filter);
                assert(self.xrefs@.take(i + 1).drop_last() == self.xrefs@.take(i as int));
                assert(self.xrefs@.take(i + 1).last() == self.xrefs@[i as int]);
            }
            let x = self.xrefs[i];
            if x.1 == va {
                r.push(x);
            }
            i += 1;
        }
        proof {
            assert(self.xrefs@.take(self.xrefs@.len() as int) == self.xrefs@);
        }
        r
    }

    /// The name of the file whose segment covers `va`: the first covering
    /// segment in registration order, or `None` when no segment covers it.
    pub fn get_file_by_va(&self, va: i32) -> (r: Option<String>)
        ensures
            match r {
                Some(name) => covering_file_spec(self.segments@, va) == Some(name@),
                None => covering_file_spec(self.segments@, va) is None,
            },
    {
        let mut i: usize = 0;
        proof {
            assert(self.segments@.skip(0) =~= self.segments@);
        }
        while i < self.segments.len()
            invariant
                0 <= i <= self.segments@.len(),
                covering_file_spec(self.segments@, va) == covering_file_spec(
                    self.segments@.skip(i as int),
                    va,
                ),
            decreases self.segments@.len() - i,
        {
            proof {
                assert(self.segments@.skip(i as int)[0] == self.segments@[i as int]);
                assert(self.segments@.skip(i as int).drop_first() =~= self.segments@.skip(i + 1));
            }
            let base = self.segments[i].0;
            let size = self.segments[i].1;
            if base <= va && (va as i64) < (base as i64) + (size as i64) {
                return Some(self.segments[i].2.clone());
            }
            i += 1;
        }
        proof {
            assert(self.segments@.skip(self.segments@.len() as int).len() == 0);
        }
        None
    }

    /// The image base recorded for the named file: the first recorded
    /// entry under that name, or `None` when none is.
    pub fn get_file_imagebase(&self, filename: &String) -> (r: Option<i32>)
        ensures
            r == imagebase_lookup_spec(self.file_imagebase@, filename@),
    {
        let mut i: usize = 0;
        proof {
            assert(self.file_imagebase@.skip(0) =~= self.file_imagebase@);
        }
        while i < self.file_imagebase.len()
            invariant
                0 <= i <= self.file_imagebase@.len(),
                imagebase_lookup_spec(self.file_imagebase@, filename@) == imagebase_lookup_spec(
                    self.file_imagebase@.skip(i as int),
                    filename@,
                ),
            decreases self.file_imagebase@.len() - i,
        {
            proof {
                assert(self.file_imagebase@.skip(i as int)[0] == self.file_imagebase@[i as int]);
                assert(self.file_imagebase@.skip(i as int).drop_first() =~= self.file_imagebase@
                    .skip(i + 1));
            }
            if self.file_imagebase[i].0 == *filename {
                return Some(self.file_imagebase[i].1);
            }
            i += 1;
        }
        proof {
            assert(self.file_imagebase@.skip(self.file_imagebase@.len() as int).len() == 0);
        }
        None
    }
}

} // verus!
