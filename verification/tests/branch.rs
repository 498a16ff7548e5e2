use sbpf_coverage::branch::{branches_from_frames, get_frame_details, Branch, FrameDetails};
use sbpf_coverage::branch_report::{write_branch_coverage, write_branch_lcov, LcovBranch};
use sbpf_coverage::debug_info::{LoaderFrame, SourceLocation};
use sbpf_coverage::opcode::{in_jump_class, is_conditional_jump, jump_offset_of, opcode_of};
use std::collections::BTreeMap;

const TEXT: u64 = 0x100;

fn jump(opcode: u8, offset: i16) -> u64 {
    opcode as u64 | ((offset as u16 as u64) << 16)
}

fn regs_at(pc: u64) -> [u64; 12] {
    let mut row = [0u64; 12];
    row[11] = (pc - TEXT) / 8;
    row
}

fn frame<'a>(file: &'a str, line: u32) -> Option<FrameDetails<'a>> {
    Some(FrameDetails {
        dw_die_offset: None,
        demangled_function_name: None,
        file_name: Some(file),
        line_num: Some(line),
        column: None,
    })
}

struct Trace {
    vaddrs: Vec<u64>,
    insns: Vec<u64>,
    regs: Vec<[u64; 12]>,
    frames: Vec<Option<FrameDetails<'static>>>,
}

fn trace(steps: &[(u64, u64, Option<(&'static str, u32)>)]) -> Trace {
    let mut t = Trace { vaddrs: vec![], insns: vec![], regs: vec![], frames: vec![] };
    for (pc, insn, line) in steps {
        t.vaddrs.push(*pc);
        t.insns.push(*insn);
        t.regs.push(regs_at(*pc));
        t.frames.push(line.and_then(|(file, line)| frame(file, line)));
    }
    t
}

fn branches(t: &Trace) -> Option<BTreeMap<u64, Branch>> {
    branches_from_frames(&t.vaddrs, &t.insns, &t.regs, TEXT, &t.frames)
}

#[test]
fn opcodes_are_classified() {
    assert_eq!(opcode_of(0x8000_0000_0002_0015), 0x15);
    assert_eq!(jump_offset_of(jump(0x15, -3)), -3);
    assert_eq!(jump_offset_of(jump(0x15, 0x7fff)), 0x7fff);
    assert!(in_jump_class(0x15));
    assert!(in_jump_class(0x1e));
    assert!(!in_jump_class(0xb7));
    assert!(!in_jump_class(0x18));
    assert!(is_conditional_jump(0x15));
    assert!(is_conditional_jump(0x55));
    assert!(is_conditional_jump(0x16));
    for opcode in [0x05u8, 0x06, 0x85, 0x8d, 0x95, 0x18, 0xb7] {
        assert!(!is_conditional_jump(opcode), "{:x}", opcode);
    }
}

#[test]
fn taken_and_not_taken() {
    let line = Some(("/src/lib.rs", 10));
    let t = trace(&[
        (0x100, jump(0x15, 2), line),
        (0x118, jump(0x55, -4), Some(("/src/lib.rs", 12))),
        (0x100, jump(0x15, 2), Some(("/src/other.rs", 99))),
        (0x108, 0xb7, line),
    ]);
    let found = branches(&t).unwrap();
    assert_eq!(found.len(), 2);
    assert_eq!(
        found[&0x100],
        Branch {
            file: Some("/src/lib.rs".to_string()),
            line: Some(10),
            next_taken: 1,
            goto_taken: 1,
            branch_id: 1,
        }
    );
    assert_eq!(
        found[&0x118],
        Branch {
            file: Some("/src/lib.rs".to_string()),
            line: Some(12),
            next_taken: 0,
            goto_taken: 1,
            branch_id: 2,
        }
    );
}

#[test]
fn jump_to_the_next_instruction_counts_twice() {
    let line = Some(("/src/lib.rs", 10));
    let t = trace(&[(0x100, jump(0x15, 0), line), (0x108, 0x95, line)]);
    let found = branches(&t).unwrap();
    assert_eq!(found[&0x100].next_taken, 1);
    assert_eq!(found[&0x100].goto_taken, 1);
}

#[test]
fn unknown_frames_and_the_last_step_do_not_count() {
    let line = Some(("/src/lib.rs", 10));
    let t = trace(&[
        (0x100, jump(0x15, 2), None),
        (0x108, 0x05, line),
        (0x110, 0x85, line),
        (0x118, jump(0x15, 2), line),
    ]);
    assert_eq!(branches(&t).unwrap().len(), 0);
}

#[test]
fn branches_keep_their_numbers_when_a_trace_goes_on() {
    let line = Some(("/src/lib.rs", 10));
    let steps = [
        (0x110, jump(0x15, -3), line),
        (0x100, jump(0x15, 1), line),
        (0x108, jump(0x25, 0), line),
        (0x110, jump(0x15, -3), line),
        (0x118, 0x95, line),
    ];
    let all = branches(&trace(&steps)).unwrap();
    let ids: Vec<u64> = all.values().map(|b| b.branch_id).collect();
    assert_eq!(ids, vec![2, 3, 1]);
    assert_eq!(all[&0x110].goto_taken + all[&0x110].next_taken, 2);
    let part = branches(&trace(&steps[..3])).unwrap();
    for (vaddr, branch) in &part {
        assert_eq!(branch.branch_id, all[vaddr].branch_id);
        assert!(branch.goto_taken <= all[vaddr].goto_taken);
        assert!(branch.next_taken <= all[vaddr].next_taken);
        assert!(branch.goto_taken + branch.next_taken >= 1);
    }
}

#[test]
fn steps_that_cannot_be_computed() {
    let line = Some(("/src/lib.rs", 10));
    let mut short = trace(&[(0x100, 0xb7, line), (0x108, 0xb7, line)]);
    short.insns.pop();
    assert!(branches(&short).is_none());
    let mut unknown = trace(&[(0x100, 0xb7, line), (0x108, 0xb7, None)]);
    unknown.insns.pop();
    assert!(branches(&unknown).is_some());
    let far = Trace {
        vaddrs: vec![u64::MAX - 7],
        insns: vec![jump(0x15, 0)],
        regs: vec![[0; 12]],
        frames: vec![frame("/src/lib.rs", 1)],
    };
    assert!(branches(&far).is_none());
    let target = Trace { vaddrs: vec![i64::MAX as u64 - 7], ..far };
    assert!(branches(&target).is_none());
    let high = Trace { vaddrs: vec![0x100], insns: vec![jump(0x15, -0x8000)], ..target };
    assert!(branches(&high).is_some());
    let mut next = trace(&[(0x100, jump(0x15, 0), line), (0x108, 0x95, None)]);
    next.regs[1][11] = u64::MAX;
    assert!(branches(&next).is_none());
}

#[test]
fn branches_of_a_cut_trace() {
    let line = Some(("/src/lib.rs", 10));
    let steps = [
        (0x110, jump(0x15, -3), line),
        (0x100, jump(0x15, 1), line),
        (0x108, jump(0x25, 0), line),
        (0x110, jump(0x15, -3), line),
        (0x118, 0x95, line),
    ];
    let whole = branches(&trace(&steps)).unwrap();
    let mut numbers: Vec<u64> = whole.values().map(|b| b.branch_id).collect();
    numbers.sort();
    assert_eq!(numbers, vec![1, 2, 3]);
    for k in 1..=steps.len() {
        let part = branches(&trace(&steps[..k])).unwrap();
        // The last row says nothing: the registers behind it are cut off.
        assert_eq!(part.len(), [0, 1, 2, 3, 3][k - 1]);
        for (vaddr, branch) in &part {
            assert_eq!(branch.branch_id, whole[vaddr].branch_id);
            assert!(branch.goto_taken <= whole[vaddr].goto_taken);
            assert!(branch.next_taken <= whole[vaddr].next_taken);
        }
    }
}

#[test]
fn no_frame_is_known_for_the_last_address() {
    let last = Trace {
        vaddrs: vec![u64::MAX],
        insns: vec![0xb7],
        regs: vec![[0; 12]],
        frames: vec![None],
    };
    assert!(branches(&last).is_none());
}

#[test]
fn frames_are_flattened() {
    let location = SourceLocation { file: Some("a.rs"), line: Some(3), column: Some(4) };
    let details = get_frame_details(LoaderFrame {
        dw_die_offset: Some(9),
        function: Some(Some("f".to_string())),
        location: Some(location),
    });
    assert_eq!(details.dw_die_offset, Some(9));
    assert_eq!(details.demangled_function_name, Some("f".to_string()));
    assert_eq!(details.file_name, Some("a.rs"));
    assert_eq!((details.line_num, details.column), (Some(3), Some(4)));
    let details = get_frame_details(LoaderFrame {
        dw_die_offset: None,
        function: Some(None),
        location: None,
    });
    assert_eq!(details.demangled_function_name, Some("cant_demangle".to_string()));
    assert_eq!((details.file_name, details.line_num, details.column), (None, None, None));
    let details =
        get_frame_details(LoaderFrame { dw_die_offset: None, function: None, location: None });
    assert_eq!(details.demangled_function_name, None);
}

#[test]
fn new_branches_have_no_hits() {
    let branch = Branch::new(Some("a.rs"), Some(7), 5);
    assert_eq!(
        branch,
        Branch {
            file: Some("a.rs".to_string()),
            line: Some(7),
            next_taken: 0,
            goto_taken: 0,
            branch_id: 5,
        }
    );
    assert_eq!(Branch::new(None, None, 0), Branch::default());
}

#[test]
fn branch_records() {
    let mut out = String::from("x");
    let written = write_branch_lcov(&mut out, "/src/é.rs", 12, LcovBranch::NextNotTaken, 3);
    let record = "\nSF:/src/é.rs\nDA:12,1\nBRDA:12,3,0,0\nBRDA:12,3,1,1\nend_of_record\n";
    assert_eq!(out, format!("x{}", record));
    assert_eq!(written, record.len());
    let mut out = String::new();
    write_branch_lcov(&mut out, "/src/a.rs", 1, LcovBranch::GotoNotTaken, 4);
    assert_eq!(out, "\nSF:/src/a.rs\nDA:1,1\nBRDA:1,4,0,1\nBRDA:1,4,1,0\nend_of_record\n");
}

#[test]
fn branch_report() {
    let branch = |file: Option<&str>, next_taken: u32, goto_taken: u32, branch_id: u64| Branch {
        file: file.map(String::from),
        line: Some(5),
        next_taken,
        goto_taken,
        branch_id,
    };
    let mut branches: BTreeMap<u64, Branch> = BTreeMap::new();
    branches.insert(0x30, branch(Some("/src/a.rs"), 1, 2, 1));
    branches.insert(0x10, branch(Some("/src/a.rs"), 0, 2, 2));
    branches.insert(0x20, branch(Some("/src/a.rs"), 1, 0, 3));
    branches.insert(0x40, branch(Some("/dep/b.rs"), 1, 1, 4));
    branches.insert(0x50, branch(None, 1, 1, 5));
    branches.insert(0x60, Branch { line: None, ..branch(Some("/src/a.rs"), 1, 1, 6) });
    let mut expected = String::new();
    write_branch_lcov(&mut expected, "/src/a.rs", 5, LcovBranch::NextNotTaken, 2);
    write_branch_lcov(&mut expected, "/src/a.rs", 5, LcovBranch::GotoNotTaken, 3);
    write_branch_lcov(&mut expected, "/src/a.rs", 5, LcovBranch::NextNotTaken, 1);
    write_branch_lcov(&mut expected, "/src/a.rs", 5, LcovBranch::GotoNotTaken, 1);
    assert_eq!(write_branch_coverage(&branches, &vec!["/src".to_string()]), expected);
    assert_eq!(write_branch_coverage(&branches, &vec!["/none".to_string()]), "");
}
