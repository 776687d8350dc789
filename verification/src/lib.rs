//! Analysis of raw executable byte buffers: loading bytes into an
//! addressable workspace, decomposing functions into basic blocks and
//! instructions, classifying functions as user code or known library code by
//! byte-pattern signatures, and a full-coverage emulation driver that
//! explores every branch from an entry point.

pub mod classify;
pub mod driver;
pub mod function;
pub mod monitor;
pub mod sigload;
pub mod workspace;

use vstd::prelude::*;

use crate::workspace::Workspace;

verus! {

/// Default load address for shellcode buffers.
pub const SHELLCODE_BASE: i32 = 0x690000;

/// Load a shellcode buffer into a fresh workspace: one readable, writable
/// and executable memory map at `SHELLCODE_BASE`, that address as the single
/// entry point, platform `pe` and format `blob`.
pub fn get_shell_code_workspace(buffer: Vec<u8>, arch: Option<&str>, _analyze: bool) -> (ws:
    Workspace)
    requires
        arch is Some,
    ensures
        ws.memory_maps@.len() == 1,
        ws.memory_maps@[0].va == SHELLCODE_BASE,
        ws.memory_maps@[0].perms == crate::workspace::MM_RWX,
        ws.memory_maps@[0].name@ == "Shellcode"@,
        ws.memory_maps@[0].bytes@ == buffer@,
        ws.entry_points@ == seq![SHELLCODE_BASE],
        ws.architecture matches Some(a) && a@ == arch->0@,
        ws.platform matches Some(p) && p@ == "pe"@,
        ws.format matches Some(f) && f@ == "blob"@,
        ws.function_catalogue@.len() == 0,
        ws.library_functions@.len() == 0,
        ws.unclassified_functions@.len() == 0,
        ws.instructions@.len() == 0,
        ws.wf(),
{
    let base = SHELLCODE_BASE;
    let mut ws = Workspace::new();
    ws.set_architecture(Some(arch.unwrap().to_owned()));
    ws.set_platform(Some("pe".to_owned()));
    ws.add_memory_map(base, crate::workspace::MM_RWX, "Shellcode".to_owned(), buffer);
    ws.add_entry_point(base);
    ws.set_format(Some("blob".to_owned()));
    proof {
        assert(ws.entry_points@ == seq![SHELLCODE_BASE]);
    }
    ws
}

/// The code cross-references leaving the branch list `branches` at `va`:
/// every non-procedure branch as a (from, to, REF_CODE, flags) tuple, in
/// branch order. Procedure (call) edges are filtered out.
pub open spec fn code_xrefs_from(branches: Seq<(i32, i32)>, va: i32) -> Seq<(i32, i32, i32, i32)>
    decreases branches.len(),
{
    if branches.len() == 0 {
        Seq::empty()
    } else {
        let rest = code_xrefs_from(branches.drop_last(), va);
        if branches.last().1 & crate::workspace::BR_PROC != 0 {
            rest
        } else {
            rest.push((va, branches.last().0, crate::workspace::REF_CODE, branches.last().1))
        }
    }
}

/// All code cross-references whose origin is the instruction at `va`: its
/// non-call branch edges, and — because the decoded view does not report
/// fall-throughs as edges — the synthesized fall-through edge when the
/// instruction does not transfer control unconditionally.
pub open spec fn all_xrefs_from_spec(ws: Workspace, va: i32) -> Seq<(i32, i32, i32, i32)> {
    match ws.decode_spec(va) {
        None => Seq::empty(),
        Some(inst) => code_xrefs_from(ws.branches_spec(va), va) + if inst.no_fallthrough {
            Seq::empty()
        } else {
            seq![
                (
                    va,
                    (inst.va + inst.size) as i32,
                    crate::workspace::REF_CODE,
                    crate::workspace::BR_FALL,
                ),
            ]
        },
    }
}

/// All code cross-references whose origin is the instruction at `va`: its
/// branch edges, excluding procedure-call edges, plus the fall-through
/// edge the decoder does not report.
pub fn get_all_xrefs_from(workspace: &Workspace, va: i32) -> (r: Vec<(i32, i32, i32, i32)>)
    requires
        workspace.wf(),
        workspace.decode_spec(va) is Some,
    ensures
        r@ == all_xrefs_from_spec(*workspace, va),
{
    let inst = workspace.decode_at(va).unwrap();
    let mut r: Vec<(i32, i32, i32, i32)> = Vec::new();
    let branches = workspace.get_branches(va);
    let mut i: usize = 0;
    while i < branches.len()
        invariant
            0 <= i <= branches@.len(),
            r@ == code_xrefs_from(branches@.take(i as int), va),
        decreases branches@.len() - i,
    {
        let (to_va, b_flags) = branches[i];
        if (b_flags & crate::workspace::BR_PROC) == 0 {
            r.push((va, to_va, crate::workspace::REF_CODE, b_flags));
        }
        proof {
            assert(branches@.take(i + 1).drop_last() == branches@.take(i as int));
            assert(branches@.take(i + 1).last() == branches@[i as int]);
        }
        i += 1;
    }
    proof {
        assert(branches@.take(branches@.len() as int) == branches@);
    }
    if !inst.no_fallthrough {
        proof {
            let j = choose|j: int|
                0 <= j < workspace.instructions@.len() && #[trigger] workspace.instructions@[j].va
                    == va;
            assert(workspace.instructions@[j] == inst);
            assert(inst.va + inst.size <= i32::MAX);
        }
        let ghost pre = r@;
        r.push((va, va + inst.size, crate::workspace::REF_CODE, crate::workspace::BR_FALL));
        proof {
            assert(r@ =~= pre + seq![
                (
                    va,
                    (inst.va + inst.size) as i32,
                    crate::workspace::REF_CODE,
                    crate::workspace::BR_FALL,
                ),
            ]);
        }
    } else {
        proof {
            assert(r@ =~= r@ + Seq::<(i32, i32, i32, i32)>::empty());
        }
    }
    r
}

/// The image base of the file containing the first entry point: the base
/// recorded for the first segment covering that address, or 0 when no
/// loaded file covers the entry point or no base is recorded for it.
pub fn get_imagebase(workspace: &Workspace) -> (r: i32)
    requires
        workspace.entry_points@.len() > 0,
    ensures
        r == (match crate::workspace::covering_file_spec(
            workspace.segments@,
            workspace.entry_points@[0],
        ) {
            None => 0,
            Some(name) => match crate::workspace::imagebase_lookup_spec(
                workspace.file_imagebase@,
                name,
            ) {
                None => 0,
                Some(base) => base,
            },
        }),
{
    let entry_point = workspace.entry_points[0];
    let base_name = workspace.get_file_by_va(entry_point);
    if let Some(basename) = base_name {
        if let Some(base) = workspace.get_file_imagebase(&basename) {
            return base;
        }
    }
    0
}

/// Whether the function at `va` is a thunk. No thunk analysis is performed:
/// this always reports that it is not.
pub fn is_thunk_function(_workspace: &Workspace, _va: i32) -> (r: bool)
    ensures
        r == false,
{
    false
}

/// Whether the function at `va` has already been marked as library code.
/// No per-address marking is kept: this always reports that it is not.
pub fn is_library_function(_workspace: &Workspace, _va: i32) -> (r: bool)
    ensures
        r == false,
{
    false
}

/// The display name recorded for the function at `va`. No per-address names
/// are kept: this always reports the empty name.
pub fn get_function_name(_workspace: &Workspace, _va: i32) -> (r: String)
    ensures
        r@.len() == 0,
{
    String::new()
}

/// Retain in `hooks` only the hook names on the allow list, in their
/// original order; with no allow list, remove every hook.
pub fn remove_default_vivi_hooks(hooks: &mut Vec<String>, allow_list: Option<&Vec<String>>)
    ensures
        match allow_list {
            None => final(hooks)@.len() == 0,
            Some(al) => final(hooks)@ == retained_hooks(old(hooks)@, al@),
        },
{
    match allow_list {
        None => {
            hooks.clear();
        },
        Some(al) => {
            let mut kept: Vec<String> = Vec::new();
            let mut i: usize = 0;
            while i < hooks.len()
                invariant
                    0 <= i <= hooks@.len(),
                    kept@ == retained_hooks(hooks@.take(i as int), al@),
                decreases hooks@.len() - i,
            {
                if contains_name(al, &hooks[i]) {
                    kept.push(hooks[i].clone());
                }
                proof {
                    assert(hooks@.take(i + 1).drop_last() == hooks@.take(i as int));
                    assert(hooks@.take(i + 1).last() == hooks@[i as int]);
                }
                i += 1;
            }
            proof {
                assert(hooks@.take(hooks@.len() as int) == hooks@);
            }
            *hooks = kept;
        },
    }
}

/// Whether some name in `names` equals `x`.
pub open spec fn contains_name_spec(names: Seq<String>, x: Seq<char>) -> bool {
    exists|i: int| 0 <= i < names.len() && (#[trigger] names[i])@ == x
}

/// The subsequence of `hooks` whose names occur in `allow`.
pub open spec fn retained_hooks(hooks: Seq<String>, allow: Seq<String>) -> Seq<String>
    decreases hooks.len(),
{
    if hooks.len() == 0 {
        Seq::empty()
    } else {
        let rest = retained_hooks(hooks.drop_last(), allow);
        if contains_name_spec(allow, hooks.last()@) {
            rest.push(hooks.last())
        } else {
            rest
        }
    }
}

/// Whether some name in `names` equals `x`.
pub fn contains_name(names: &Vec<String>, x: &String) -> (r: bool)
    ensures
        r == contains_name_spec(names@, x@),
{
    let mut i: usize = 0;
    while i < names.len()
        invariant
            0 <= i <= names@.len(),
            forall|j: int| 0 <= j < i ==> (#[trigger] names@[j])@ != x@,
        decreases names@.len() - i,
    {
        if names[i] == *x {
            proof {
                assert((#[trigger] names@[i as int])@ == x@);
            }
            return true;
        }
        i += 1;
    }
    false
}

} // verus!
