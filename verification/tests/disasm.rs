use std::collections::BTreeMap;
use std::rc::Rc;
use vostok_pdb_parser::disasm::{
    collect_labels, decode, instruction_texts, label_at, Flow, Insn, Names,
};
use vostok_pdb_parser::symbols::SymbolMaps;

const VA: u64 = 0x401000;

fn symbols(functions: &[(usize, &str)], data: &[(usize, &str)]) -> Rc<SymbolMaps> {
    let map = |m: &[(usize, &str)]| -> BTreeMap<usize, String> {
        m.iter().map(|(k, v)| (*k, v.to_string())).collect()
    };
    Rc::new(SymbolMaps { functions: map(functions), data: map(data) })
}

fn texts(code: &[u8], symbols: Rc<SymbolMaps>) -> Vec<String> {
    let labels = decode(code, VA).labels;
    instruction_texts(code, Names { image_base: 0x400000, va: VA, labels, symbols })
}

#[test]
fn instructions_cover_the_code() {
    let d = decode(&[0x55, 0x8b, 0xec, 0x5d, 0xc3], VA);
    let spans: Vec<(u64, usize)> = d.instructions.iter().map(|i| (i.ip, i.len)).collect();
    assert_eq!(spans, vec![(VA, 1), (VA + 1, 2), (VA + 3, 1), (VA + 4, 1)]);
    assert!(matches!(d.instructions[0].flow, Flow::Next));
    assert!(matches!(d.instructions[3].flow, Flow::Return));
    assert!(d.labels.is_empty());
}

#[test]
fn cut_off_instructions_cover_the_rest() {
    let d = decode(&[0x90, 0xe8, 0x00, 0x00], VA);
    let spans: Vec<(u64, usize)> = d.instructions.iter().map(|i| (i.ip, i.len)).collect();
    assert_eq!(spans, vec![(VA, 1), (VA + 1, 3)]);
    assert!(decode(&[], VA).instructions.is_empty());
}

#[test]
fn flows_are_told_apart() {
    let code = [
        0xeb, 0x00, 0x74, 0x00, 0xe8, 0, 0, 0, 0, 0xff, 0xe0, 0xff, 0xd0, 0xcc, 0xc7, 0xf8, 0, 0,
        0, 0, 0x0f, 0x0b,
    ];
    let flows: Vec<Flow> = decode(&code, VA).instructions.iter().map(|i| i.flow).collect();
    let expected = vec![
        Flow::UnconditionalBranch,
        Flow::ConditionalBranch,
        Flow::Call,
        Flow::IndirectBranch,
        Flow::IndirectCall,
        Flow::Interrupt,
        Flow::Transaction,
        Flow::Exception,
    ];
    assert!(flows == expected);
}

#[test]
fn jumps_make_labels_in_address_order() {
    // 0: jmp 5; 2: jz 2; 4: nop; 5: jmp 0; 7: jmp 5; 9: jmp far out
    let code = [0xeb, 0x03, 0x74, 0xfe, 0x90, 0xeb, 0xf9, 0xeb, 0xfc, 0xeb, 0x40];
    let d = decode(&code, VA);
    let places: Vec<u32> = d.labels.iter().map(|l| l.0).collect();
    assert_eq!(places, vec![0, 2, 5]);
    assert_eq!(label_at(&d.labels, 0), Some(".1".to_string()));
    assert_eq!(label_at(&d.labels, 2), Some(".2".to_string()));
    assert_eq!(label_at(&d.labels, 5), Some(".3".to_string()));
    assert_eq!(label_at(&d.labels, 4), None);
}

#[test]
fn only_jumps_that_stay_inside_make_labels() {
    let insn = |ip: u64, flow: Flow, target: u64| Insn { ip, len: 2, flow, target };
    let insns = vec![
        insn(VA, Flow::Call, VA),
        insn(VA + 2, Flow::ConditionalBranch, VA + 8),
        insn(VA + 4, Flow::UnconditionalBranch, VA - 1),
        insn(VA + 6, Flow::ConditionalBranch, VA + 7),
    ];
    assert_eq!(collect_labels(&insns, VA, 8), vec![(7, 6)]);
}

#[test]
fn operands_show_names() {
    let s = symbols(&[(0x2000, "vostok::foo")], &[(0x3000, "g_value"), (0x2000, "hidden")]);
    // call 402000; mov eax, [403000]; call 402001; jmp short to itself; ret
    let code = [
        0xe8, 0xfb, 0x0f, 0, 0, 0xa1, 0x00, 0x30, 0x40, 0, 0xe8, 0xf2, 0x0f, 0, 0, 0xeb, 0xfe, 0xc3,
    ];
    assert_eq!(
        texts(&code, s),
        vec!["call vostok::foo", "mov eax,[g_value]", "call 00402001h", "jmp short .1", "ret"]
    );
}

#[test]
fn labels_win_over_functions() {
    let s = symbols(&[(0x1000, "self_name")], &[]);
    let code = [0xeb, 0xfe];
    assert_eq!(texts(&code, s.clone()), vec!["jmp short .1"]);
    let names = Names { image_base: 0x400000, va: VA, labels: vec![(0, 0)], symbols: s };
    assert_eq!(names.resolve(VA), Some(".1".to_string()));
    assert_eq!(names.resolve(VA + 1), None);
    assert_eq!(names.resolve(0x3fffff), None);
}
