use shellcode_flirt::classify::{classify_matches, FlirtFunctionAnalyzer};
use shellcode_flirt::driver::{FullCoverageEmulatorDriver, RunReason};
use shellcode_flirt::function::{BasicBlock, DecomposeError, Function};
use shellcode_flirt::monitor::{EmulatorDriver, Monitor, UntilAvMonitor};
use shellcode_flirt::sigload::{
    load_signatures_pat, load_signatures_pat_gz, signature_match_entries, signature_source_kind,
    SignatureError, SignatureKind,
};
use shellcode_flirt::workspace::{
    Instruction, Workspace, BR_COND, BR_FALL, BR_PROC, BR_TABLE, MM_RWX, REF_CODE,
};
use shellcode_flirt::{
    get_all_xrefs_from, get_function_name, get_imagebase, get_shell_code_workspace,
    is_library_function, is_thunk_function, remove_default_vivi_hooks, SHELLCODE_BASE,
};

// A pattern line: 6 fixed bytes then 26 wildcard positions, no checksum,
// function size 0x10, public name memcpy at offset 0.
const PAT_TEXT: &str =
    "5589E58B450C.................................................... 00 0000 0010 :0000 memcpy\n---";

fn sample_buffer() -> Vec<u8> {
    let mut buf = vec![0x55u8, 0x89, 0xE5, 0x8B, 0x45, 0x0C];
    buf.resize(64, 0);
    buf
}

fn gzip_bytes(text: &str) -> Vec<u8> {
    let mut encoder =
        flate2::write::GzEncoder::new(Vec::new(), flate2::Compression::default());
    std::io::Write::write_all(&mut encoder, text.as_bytes()).unwrap();
    encoder.finish().unwrap()
}

fn instr(va: i32, size: i32, rep_prefix: bool, no_fallthrough: bool) -> Instruction {
    Instruction { va, size, rep_prefix, no_fallthrough }
}

#[test]
fn workspace_from_shellcode_buffer() {
    let ws = get_shell_code_workspace(vec![1, 2, 3], Some("i386"), true);
    assert_eq!(ws.memory_maps.len(), 1);
    assert_eq!(ws.memory_maps[0].va, SHELLCODE_BASE);
    assert_eq!(ws.memory_maps[0].perms, MM_RWX);
    assert_eq!(ws.memory_maps[0].name, "Shellcode");
    assert_eq!(ws.memory_maps[0].bytes, vec![1, 2, 3]);
    assert_eq!(ws.entry_points, vec![SHELLCODE_BASE]);
    assert_eq!(ws.architecture.as_deref(), Some("i386"));
    assert_eq!(ws.platform.as_deref(), Some("pe"));
    assert_eq!(ws.format.as_deref(), Some("blob"));
}

#[test]
fn source_kind_from_suffix() {
    assert_eq!(signature_source_kind("msvc.sig"), SignatureKind::Sig);
    assert_eq!(signature_source_kind("msvc.pat"), SignatureKind::Pat);
    assert_eq!(signature_source_kind("msvc.pat.gz"), SignatureKind::PatGz);
    assert_eq!(signature_source_kind("msvc.txt"), SignatureKind::Unknown);
    assert_eq!(signature_source_kind(""), SignatureKind::Unknown);
}

#[test]
fn pat_and_pat_gz_load_equal_sets() {
    let from_text = load_signatures_pat(PAT_TEXT).unwrap();
    let from_gz = load_signatures_pat_gz(&gzip_bytes(PAT_TEXT)).unwrap();
    assert_eq!(from_text.len(), from_gz.len());
    let buf = sample_buffer();
    let text_entries = signature_match_entries(&from_text, &buf);
    let gz_entries = signature_match_entries(&from_gz, &buf);
    assert_eq!(text_entries, gz_entries);
    assert_eq!(text_entries.len(), 1);
    assert_eq!(text_entries[0].0.as_deref(), Some("memcpy"));
    assert_eq!(text_entries[0].1, 0x10);
}

#[test]
fn pat_parse_failure_is_reported() {
    assert_eq!(load_signatures_pat("no pattern here").unwrap_err(), SignatureError::Parse);
}

#[test]
fn gzip_failure_is_reported() {
    assert_eq!(
        load_signatures_pat_gz(&[0x00, 0x01, 0x02]).unwrap_err(),
        SignatureError::Gzip
    );
}

#[test]
fn crc_mismatch_rejects_match() {
    // same byte pattern, but two checksummed bytes with a wrong checksum
    let pat = "5589E58B450C.................................................... 02 FFFF 0010 :0000 memcpy\n---";
    let sigs = load_signatures_pat(pat).unwrap();
    let mut buf = sample_buffer();
    buf.resize(80, 0);
    assert!(signature_match_entries(&sigs, &buf).is_empty());
}

#[test]
fn matcher_rejects_other_bytes() {
    let sigs = load_signatures_pat(PAT_TEXT).unwrap();
    let buf = vec![0u8; 64];
    assert!(signature_match_entries(&sigs, &buf).is_empty());
}

#[test]
fn classification_moves_matched_name() {
    let sigs = load_signatures_pat(PAT_TEXT).unwrap();
    let mut ws = get_shell_code_workspace(sample_buffer(), Some("i386"), false);
    ws.function_catalogue = vec![
        ("memcpy".to_string(), SHELLCODE_BASE),
        ("sub_690040".to_string(), SHELLCODE_BASE + 0x40),
    ];
    let analyzer = FlirtFunctionAnalyzer::new(sigs, "test.pat".to_string());
    let sample = sample_buffer();
    analyzer.analyze(&mut ws, &sample);
    assert_eq!(ws.library_functions, vec![("memcpy".to_string(), 0x10)]);
    assert_eq!(
        ws.unclassified_functions,
        vec![("sub_690040".to_string(), SHELLCODE_BASE + 0x40)]
    );
    // the catalogue itself is untouched
    assert_eq!(ws.function_catalogue.len(), 2);
}

#[test]
fn classification_is_idempotent() {
    let sigs = load_signatures_pat(PAT_TEXT).unwrap();
    let mut ws = get_shell_code_workspace(sample_buffer(), Some("i386"), false);
    ws.function_catalogue = vec![
        ("memcpy".to_string(), SHELLCODE_BASE),
        ("sub_690040".to_string(), SHELLCODE_BASE + 0x40),
    ];
    let analyzer = FlirtFunctionAnalyzer::new(sigs, "test.pat".to_string());
    let sample = sample_buffer();
    analyzer.analyze(&mut ws, &sample);
    let first_lib = ws.library_functions.clone();
    let first_rest = ws.unclassified_functions.clone();
    analyzer.analyze(&mut ws, &sample);
    assert_eq!(ws.library_functions, first_lib);
    assert_eq!(ws.unclassified_functions, first_rest);
}

#[test]
fn classification_partitions_catalogue() {
    let catalogue = vec![
        ("alpha".to_string(), 1),
        ("beta".to_string(), 2),
        ("gamma".to_string(), 3),
    ];
    let matches = vec![
        (Some("beta".to_string()), 8u64),
        (None, 9u64),
        (Some("delta".to_string()), 7u64),
    ];
    let (lib, rest) = classify_matches(&catalogue, &matches);
    assert_eq!(lib, vec![("beta".to_string(), 8)]);
    assert_eq!(rest, vec![("alpha".to_string(), 1), ("gamma".to_string(), 3)]);
    let mut names: Vec<String> = lib.iter().map(|p| p.0.clone()).collect();
    names.extend(rest.iter().map(|p| p.0.clone()));
    names.sort();
    assert_eq!(names, vec!["alpha", "beta", "gamma"]);
}

#[test]
fn duplicate_matches_are_stale() {
    let catalogue = vec![("memcpy".to_string(), 1)];
    let matches = vec![
        (Some("memcpy".to_string()), 16u64),
        (Some("memcpy".to_string()), 32u64),
    ];
    let (lib, rest) = classify_matches(&catalogue, &matches);
    assert_eq!(lib, vec![("memcpy".to_string(), 16)]);
    assert!(rest.is_empty());
}

fn linear_workspace() -> Workspace {
    let mut ws = Workspace::new();
    ws.instructions = vec![
        instr(0x1000, 2, false, false),
        instr(0x1002, 2, false, false),
        instr(0x1004, 2, false, false),
        instr(0x1006, 2, false, true),
    ];
    ws
}

#[test]
fn linear_function_full_coverage() {
    let driver: FullCoverageEmulatorDriver<Monitor> =
        FullCoverageEmulatorDriver::new(linear_workspace(), 1, 100);
    let result = driver.run(0x1000);
    assert_eq!(result.reason, RunReason::Done);
    let mut visited = result.visited.clone();
    visited.sort();
    assert_eq!(visited, vec![0x1000, 0x1002, 0x1004, 0x1006]);
    assert_eq!(result.edges.len(), 3);
    for (from, to, flags) in &result.edges {
        assert_eq!(*flags, BR_FALL);
        assert_eq!(*to, *from + 2);
    }
    assert!(result.anomalies.is_empty());
}

#[test]
fn reconverging_paths_visit_once() {
    let mut ws = Workspace::new();
    ws.instructions = vec![
        instr(0x10, 2, false, false),
        instr(0x12, 2, false, true),
        instr(0x20, 0x10, false, false),
        instr(0x30, 1, false, true),
    ];
    ws.branch_edges = vec![(0x10, 0x20, BR_COND), (0x12, 0x30, 0)];
    let driver: FullCoverageEmulatorDriver<Monitor> = FullCoverageEmulatorDriver::new(ws, 1, 100);
    let result = driver.run(0x10);
    assert_eq!(result.reason, RunReason::Done);
    let mut visited = result.visited.clone();
    visited.sort();
    assert_eq!(visited, vec![0x10, 0x12, 0x20, 0x30]);
    // the reconvergence address is reachable over two edges but visited once
    let into_join = result.edges.iter().filter(|e| e.1 == 0x30).count();
    assert_eq!(into_join, 2);
}

#[test]
fn breakpoint_monitor_cancels_run() {
    let mut driver: FullCoverageEmulatorDriver<UntilAvMonitor> =
        FullCoverageEmulatorDriver::new(linear_workspace(), 1, 100);
    driver.add_monitor(UntilAvMonitor::new(0x1004));
    let result = driver.run(0x1000);
    assert_eq!(result.reason, RunReason::Cancelled);
    assert!(!result.visited.contains(&0x1004));
}

#[test]
fn step_ceiling_bounds_run() {
    let driver: FullCoverageEmulatorDriver<Monitor> =
        FullCoverageEmulatorDriver::new(linear_workspace(), 1, 2);
    let result = driver.run(0x1000);
    assert_eq!(result.reason, RunReason::StepLimit);
    assert_eq!(result.visited.len(), 2);
}

#[test]
fn repeat_prefix_bounded_by_repmax() {
    let mut ws = Workspace::new();
    ws.instructions = vec![
        instr(0x5E, 1, false, false),
        instr(0x5F, 1, false, true),
        instr(0x60, 1, true, true),
    ];
    ws.branch_edges = vec![(0x5E, 0x60, 0), (0x5F, 0x60, 0)];
    let driver: FullCoverageEmulatorDriver<Monitor> = FullCoverageEmulatorDriver::new(ws, 2, 100);
    let result = driver.run(0x5E);
    assert_eq!(result.reason, RunReason::Done);
    let rep_visits = result.visited.iter().filter(|v| **v == 0x60).count();
    assert_eq!(rep_visits, 2);
}

#[test]
fn undecodable_address_is_an_anomaly() {
    let ws = Workspace::new();
    let driver: FullCoverageEmulatorDriver<Monitor> = FullCoverageEmulatorDriver::new(ws, 1, 100);
    let result = driver.run(0x40);
    assert_eq!(result.reason, RunReason::Done);
    assert!(result.visited.is_empty());
    assert_eq!(result.anomalies, vec![0x40]);
}

#[test]
fn calls_are_not_followed() {
    let mut ws = Workspace::new();
    ws.instructions = vec![instr(0x80, 2, false, true)];
    ws.branch_edges = vec![(0x80, 0x500, BR_PROC)];
    let driver: FullCoverageEmulatorDriver<Monitor> = FullCoverageEmulatorDriver::new(ws, 1, 100);
    let result = driver.run(0x80);
    assert_eq!(result.reason, RunReason::Done);
    assert_eq!(result.visited, vec![0x80]);
    assert!(result.edges.is_empty());
    assert!(result.anomalies.is_empty());
}

fn table_workspace() -> Workspace {
    let mut ws = Workspace::new();
    ws.instructions = vec![instr(0x90, 2, false, true)];
    ws.branch_edges = vec![(0x90, 0xA0, BR_TABLE)];
    ws.locations = vec![0x90];
    ws
}

#[test]
fn branch_table_needs_all_three_conditions() {
    let driver: FullCoverageEmulatorDriver<Monitor> =
        FullCoverageEmulatorDriver::new(table_workspace(), 1, 100);
    let op = instr(0x90, 2, false, true);
    assert!(driver.is_table(&op, Some(1)));
    // no cross-reference
    assert!(!driver.is_table(&op, None));
    // unknown location
    let mut no_loc = table_workspace();
    no_loc.locations.clear();
    let d2: FullCoverageEmulatorDriver<Monitor> = FullCoverageEmulatorDriver::new(no_loc, 1, 100);
    assert!(!d2.is_table(&op, Some(1)));
    // no table flag
    let mut no_flag = table_workspace();
    no_flag.branch_edges = vec![(0x90, 0xA0, BR_COND)];
    let d3: FullCoverageEmulatorDriver<Monitor> = FullCoverageEmulatorDriver::new(no_flag, 1, 100);
    assert!(!d3.is_table(&op, Some(1)));
}

#[test]
fn driver_hook_and_monitor_registration() {
    let mut driver: FullCoverageEmulatorDriver<Monitor> =
        FullCoverageEmulatorDriver::new(Workspace::new(), 1, 10);
    driver.add_monitor(Monitor {});
    driver.add_monitor(Monitor {});
    driver.remove_monitor(0);
    assert_eq!(driver.monitors.len(), 1);
    driver.add_hook(7);
    driver.add_hook(8);
    driver.add_hook(7);
    driver.remove_hook(7);
    assert_eq!(driver.hooks, vec![8]);
}

#[test]
fn xrefs_from_exclude_calls_and_add_fallthrough() {
    let mut ws = Workspace::new();
    ws.instructions = vec![instr(0x100, 2, false, false)];
    ws.branch_edges = vec![(0x100, 0x200, BR_PROC), (0x100, 0x300, BR_COND)];
    let refs = get_all_xrefs_from(&ws, 0x100);
    assert_eq!(
        refs,
        vec![
            (0x100, 0x300, REF_CODE, BR_COND),
            (0x100, 0x102, REF_CODE, BR_FALL),
        ]
    );
}

#[test]
fn xrefs_from_unconditional_transfer_has_no_fallthrough() {
    let mut ws = Workspace::new();
    ws.instructions = vec![instr(0x100, 2, false, true)];
    ws.branch_edges = vec![(0x100, 0x300, 0)];
    let refs = get_all_xrefs_from(&ws, 0x100);
    assert_eq!(refs, vec![(0x100, 0x300, REF_CODE, 0)]);
}

#[test]
fn oversized_tail_offset_is_rejected() {
    let pat =
        "5589E58B450C.................................................... 00 0000 0011 :0000 f (FFFFFFFFFFFFFFF0: 0D)\n---";
    assert_eq!(load_signatures_pat(pat).unwrap_err(), SignatureError::TailOffset);
}

#[test]
fn tail_byte_decides_match() {
    let pat =
        "5589E58B450C.................................................... 00 0000 0010 :0000 memtail (0000: AB)\n---";
    let sigs = load_signatures_pat(pat).unwrap();
    let mut buf = sample_buffer();
    // the tail byte is probed right after the 32-byte pattern window
    buf[32] = 0xAB;
    let hit = signature_match_entries(&sigs, &buf);
    assert_eq!(hit.len(), 1);
    assert_eq!(hit[0].0.as_deref(), Some("memtail"));
    buf[32] = 0x00;
    assert!(signature_match_entries(&sigs, &buf).is_empty());
}

#[test]
fn imagebase_of_first_entry_point() {
    let mut ws = Workspace::new();
    ws.entry_points = vec![0x400100];
    ws.segments = vec![(0x400000, 0x1000, "blob".to_string())];
    ws.file_imagebase = vec![("blob".to_string(), 0x400000)];
    assert_eq!(get_imagebase(&ws), 0x400000);
    ws.segments.clear();
    assert_eq!(get_imagebase(&ws), 0);
}

#[test]
fn basic_blocks_sorted_ascending() {
    let mut ws = Workspace::new();
    ws.codeblocks = vec![(0x30, 4, 0x10), (0x10, 8, 0x10), (0x20, 2, 0x999), (0x18, 2, 0x10)];
    let f = Function::new(ws, 0x10);
    let blocks = f.basic_blocks();
    let starts: Vec<i32> = blocks.iter().map(|b| b.virtual_address).collect();
    assert_eq!(starts, vec![0x10, 0x18, 0x30]);
    for b in &blocks {
        assert_eq!(b.fva, 0x10);
    }
}

#[test]
fn block_decodes_to_contiguous_instructions() {
    let mut ws = Workspace::new();
    ws.instructions = vec![
        instr(0x10, 2, false, false),
        instr(0x12, 3, false, false),
        instr(0x15, 1, false, true),
    ];
    let block = BasicBlock::new(0x10, 6, 0x10);
    let insts = block.instructions(&ws).unwrap();
    assert_eq!(insts.len(), 3);
    assert_eq!(insts[0].va, 0x10);
    assert_eq!(insts[1].va, 0x12);
    assert_eq!(insts[2].va, 0x15);
}

#[test]
fn block_boundary_overrun_is_reported() {
    let mut ws = Workspace::new();
    ws.instructions = vec![instr(0x10, 2, false, false), instr(0x12, 3, false, false)];
    let block = BasicBlock::new(0x10, 4, 0x10);
    assert_eq!(block.instructions(&ws).unwrap_err(), DecomposeError::BoundaryOverrun);
}

#[test]
fn block_with_hole_is_undecodable() {
    let mut ws = Workspace::new();
    ws.instructions = vec![instr(0x10, 2, false, false)];
    let block = BasicBlock::new(0x10, 4, 0x10);
    assert_eq!(block.instructions(&ws).unwrap_err(), DecomposeError::Undecodable);
}

#[test]
fn hook_allow_list_is_kept() {
    let mut hooks = vec![
        "GetProcAddress".to_string(),
        "_alloca_probe".to_string(),
        "LoadLibraryA".to_string(),
    ];
    let allow = vec!["_alloca_probe".to_string()];
    remove_default_vivi_hooks(&mut hooks, Some(&allow));
    assert_eq!(hooks, vec!["_alloca_probe".to_string()]);
    remove_default_vivi_hooks(&mut hooks, None);
    assert!(hooks.is_empty());
}

#[test]
fn stub_queries_report_nothing() {
    let ws = Workspace::new();
    assert!(!is_thunk_function(&ws, 0x10));
    assert!(!is_library_function(&ws, 0x10));
    assert_eq!(get_function_name(&ws, 0x10), "");
}

#[test]
fn workspace_queries() {
    let mut ws = Workspace::new();
    ws.locations = vec![0x10, 0x20];
    ws.xrefs = vec![(1, 2, REF_CODE, 0), (3, 4, REF_CODE, 0), (5, 2, REF_CODE, BR_COND)];
    ws.instructions = vec![instr(0x10, 2, false, false)];
    ws.branch_edges = vec![(0x10, 0x40, BR_COND), (0x11, 0x50, 0)];
    assert!(ws.has_location(0x20));
    assert!(!ws.has_location(0x30));
    assert_eq!(
        ws.get_xrefs_to(2),
        vec![(1, 2, REF_CODE, 0), (5, 2, REF_CODE, BR_COND)]
    );
    assert_eq!(ws.decode_at(0x10).unwrap().size, 2);
    assert!(ws.decode_at(0x11).is_none());
    assert_eq!(ws.get_branches(0x10), vec![(0x40, BR_COND)]);
    let mut ws2 = Workspace::new();
    ws2.add_entry_point(0x99);
    assert_eq!(ws2.get_entry_points(), vec![0x99]);
    assert_eq!(ws2.get_file_by_va(0x99), None);
}

#[test]
fn monitor_basics() {
    let m = Monitor {};
    assert!(!m.api_call());
    m.log_anomaly("decode failed");
    let bp = UntilAvMonitor::new(0x42);
    assert!(bp.pre_hook(0, 0x42));
    assert!(!bp.pre_hook(0, 0x41));
}

#[test]
fn emulator_driver_starts_empty() {
    let drv = EmulatorDriver::new(17i32);
    assert_eq!(drv.monitors.len(), 0);
    assert_eq!(drv.hooks.len(), 0);
    assert_eq!(drv.emu, 17);
}
