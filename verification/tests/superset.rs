use probdisasm::decoder::{DecodedDetail, DecodedInsn};
use probdisasm::superset::{
    convert_insn, extract_branch_target, Instruction, Superset, SupersetError, GROUP_CALL,
    GROUP_JUMP, GROUP_RET,
};

fn build_superset_extract_one(bytes: &[u8], addr: u64) -> Instruction {
    let superset = Superset::new(addr, bytes).expect("Failed to build superset");
    superset
        .at(addr)
        .expect("Failed to extract instruction at address")
        .clone()
}

#[test]
fn test_extract_branch_target_direct_jump() {
    let jmp_bytes: &[u8] = &[0xE9, 0x00, 0x00, 0x00, 0x00];
    let insn = build_superset_extract_one(jmp_bytes, 0x1000);
    assert_eq!(insn.branch_target, Some(0x1005));
}

#[test]
fn test_extract_branch_target_direct_call() {
    let call_bytes: &[u8] = &[0xE8, 0x0A, 0x00, 0x00, 0x00];
    let insn = build_superset_extract_one(call_bytes, 0x1000);
    assert_eq!(insn.branch_target, Some(0x100F));
}

#[test]
fn test_extract_branch_target_conditional_jump() {
    let je_bytes: &[u8] = &[0x0F, 0x84, 0x00, 0x00, 0x00, 0x00];
    let insn = build_superset_extract_one(je_bytes, 0x1000);
    assert_eq!(insn.branch_target, Some(0x1006));
}

#[test]
fn test_extract_branch_target_indirect_jump() {
    let jump_bytes: &[u8] = &[0xFF, 0xE0];
    let insn = build_superset_extract_one(jump_bytes, 0x1000);
    assert_eq!(insn.branch_target, None);
}

#[test]
fn test_extract_branch_target_indirect_call() {
    let call_bytes: &[u8] = &[0xFF, 0xD0];
    let insn = build_superset_extract_one(call_bytes, 0x1000);
    assert_eq!(insn.branch_target, None);
}

#[test]
fn test_extract_branch_target_not_branch() {
    let clear_bytes: &[u8] = &[0x89, 0xC0];
    let insn = build_superset_extract_one(clear_bytes, 0x1000);
    assert_eq!(insn.branch_target, None);
}

#[test]
fn test_superset_new_() {
    let bytes: &[u8] = &[0x90];
    let superset = Superset::new(0x1000, bytes).expect("failed to create superset");

    assert_eq!(superset.base_addr, 0x1000);
    assert_eq!(superset.bytes, bytes);
    assert_eq!(superset.instructions.len(), bytes.len());
}

#[test]
fn test_superset_new_length() {
    let bytes: &[u8] = &[0x90, 0x90, 0x90, 0xFF];
    let superset = Superset::new(0x1000, bytes).expect("failed to create superset");

    assert_eq!(superset.instructions.len(), bytes.len());
}

#[test]
fn test_superset_new_valid() {
    let bytes: &[u8] = &[0x90, 0x90, 0x90];
    let superset = Superset::new(0x1000, bytes).expect("failed to create superset");

    for insn in &superset.instructions {
        assert!(insn.is_some());
    }
}

#[test]
fn test_superset_new_invalid() {
    let bytes: &[u8] = &[0x06, 0xFF];
    let superset = Superset::new(0x1000, bytes).expect("failed to create superset");

    assert!(superset.at(0x1000).is_none());
    assert!(superset.at(0x1001).is_none());
}

#[test]
fn test_superset_at() {
    let bytes: &[u8] = &[0x90, 0xFF];
    let superset = Superset::new(0x1000, bytes).expect("failed to create superset");

    assert!(superset.at(0x1000).is_some());
    assert!(superset.at(0x1001).is_none());
}

#[test]
fn test_superset_iter_valid() {
    let bytes: &[u8] = &[0x90, 0x06, 0x90, 0x90, 0xFF];
    let superset = Superset::new(0x1000, bytes).expect("failed to create superset");

    let valid_iter = superset.iter_valid();
    assert_eq!(valid_iter.len(), 3);
}

#[test]
fn test_superset_successors_of_invalid_addr() {
    let bytes: &[u8] = &[0xFF];
    let superset = Superset::new(0x1000, bytes).expect("failed to create superset");

    assert_eq!(superset.successors_of(0x1000), Vec::new());
}

#[test]
fn test_superset_successors_of_return() {
    let bytes: &[u8] = &[0xC3];
    let superset = Superset::new(0x1000, bytes).expect("failed to create superset");

    assert_eq!(superset.successors_of(0x1000), Vec::new());
}

#[test]
fn test_superset_successors_of_default() {
    let bytes: &[u8] = &[0x90];
    let superset = Superset::new(0x1000, bytes).expect("failed to create superset");

    assert_eq!(superset.successors_of(0x1001), Vec::new());
}

#[test]
fn test_superset_successors_of_long_default() {
    let bytes: &[u8] = &[0x89, 0xC0, 0x90];
    let superset = Superset::new(0x1000, bytes).expect("failed to create superset");

    assert_eq!(superset.successors_of(0x1003), Vec::new());
}

#[test]
fn test_superset_successors_of_branch() {
    let bytes: &[u8] = &[0xE9, 0x02, 0x00, 0x00, 0x00, 0x90, 0x90, 0x89, 0xC0];
    let superset = Superset::new(0x1000, bytes).expect("failed to create superset");

    assert_eq!(superset.successors_of(0x1000), vec![0x1007]);
}

#[test]
fn test_superset_successors_of_jump() {
    let bytes: &[u8] = &[0x0F, 0x84, 0x02, 0x00, 0x00, 0x00, 0x90, 0x90, 0x89, 0xC0];
    let superset = Superset::new(0x1000, bytes).expect("failed to create superset");

    assert!(superset.successors_of(0x1000).contains(&0x1006));
    assert!(superset.successors_of(0x1000).contains(&0x1008));
}

#[test]
fn test_superset_successors_of_call() {
    let bytes: &[u8] = &[0xE8, 0x0A, 0x00, 0x00, 0x00, 0x90, 0x90, 0x89, 0xC0];
    let superset = Superset::new(0x1000, bytes).expect("failed to create superset");

    assert!(
        superset.successors_of(0x1000).contains(&0x1005),
        "call should have fall-through successor"
    );
    assert!(
        superset.successors_of(0x1000).contains(&0x100F),
        "call should have return successor"
    );
}

#[test]
fn successors_are_target_then_next() {
    let bytes: &[u8] = &[0x74, 0x01, 0x90, 0xC3];
    let superset = Superset::new(0x1000, bytes).expect("failed to create superset");

    assert_eq!(superset.successors_of(0x1000), vec![0x1003, 0x1002]);
    assert_eq!(superset.successors_of(0x1002), vec![0x1003]);
    assert_eq!(superset.successors_of(0x0fff), Vec::<u64>::new());
}

#[test]
fn groups_are_those_of_the_decoder() {
    assert_eq!(GROUP_JUMP, capstone::InsnGroupType::CS_GRP_JUMP);
    assert_eq!(GROUP_CALL, capstone::InsnGroupType::CS_GRP_CALL);
    assert_eq!(GROUP_RET, capstone::InsnGroupType::CS_GRP_RET);
}

#[test]
fn decoded_fields_come_through() {
    let insn = build_superset_extract_one(&[0x55], 0x2000);
    assert_eq!(insn.address, 0x2000);
    assert_eq!(insn.size, 1);
    assert_eq!(insn.mnemonic, "push");
    assert_eq!(insn.op_str, "rbp");
    assert!(!insn.is_branch());

    let call = build_superset_extract_one(&[0xE8, 0, 0, 0, 0], 0x2000);
    assert!(call.is_call() && call.is_branch() && !call.is_jump() && !call.is_ret());
    let ret = build_superset_extract_one(&[0xC3], 0x2000);
    assert!(ret.is_ret());
    let jmp = build_superset_extract_one(&[0xEB, 0x00], 0x2000);
    assert!(jmp.is_jump() && jmp.is_plain_jmp());
    let je = build_superset_extract_one(&[0x74, 0x00], 0x2000);
    assert!(je.is_jump() && !je.is_plain_jmp());
}

#[test]
fn no_bytes_no_slots() {
    let superset = Superset::new(0x1000, &[]).expect("failed to create superset");
    assert_eq!(superset.instructions.len(), 0);
    assert_eq!(superset.iter_valid().len(), 0);
}

#[test]
fn branch_target_is_the_first_immediate_of_a_branch() {
    let jump = vec![GROUP_JUMP as u8];
    assert_eq!(extract_branch_target(&jump, &Some(vec![None, Some(0x40), Some(0x50)])), Some(0x40));
    assert_eq!(extract_branch_target(&jump, &Some(vec![None])), None);
    assert_eq!(extract_branch_target(&jump, &None), None);
    assert_eq!(extract_branch_target(&vec![GROUP_RET as u8], &Some(vec![Some(0x40)])), None);
    assert_eq!(extract_branch_target(&jump, &Some(vec![Some(-1)])), Some(u64::MAX));
}

#[test]
fn an_instruction_without_detail_has_no_groups() {
    let d = DecodedInsn {
        address: 0x10,
        len: 3,
        mnemonic: Some("nop".to_string()),
        op_str: None,
    };
    let i = convert_insn(d, None::<DecodedDetail>);
    assert_eq!(i.address, 0x10);
    assert_eq!(i.size, 3);
    assert_eq!(i.mnemonic, "nop");
    assert_eq!(i.op_str, "");
    assert!(i.groups.is_empty() && i.branch_target.is_none());
}

#[test]
fn no_decoder_means_no_superset() {
    let r = Superset::with_decoder(Err(capstone::Error::OutOfMemory), 0x1000, &[0x90]);
    assert!(matches!(r, Err(SupersetError::DecoderUnavailable)));
    let empty = Superset::with_decoder(Err(capstone::Error::OutOfMemory), 0, &[]);
    assert!(empty.is_err());
}
