use deet::patch::{align_addr_to_word, patch_word, TRAP_OPCODE};

#[test]
fn align_rounds_down_to_word() {
    assert_eq!(align_addr_to_word(0x1000), 0x1000);
    assert_eq!(align_addr_to_word(0x1007), 0x1000);
    assert_eq!(align_addr_to_word(0x1008), 0x1008);
    assert_eq!(align_addr_to_word(0x401b3d), 0x401b38);
}

#[test]
fn patch_replaces_one_lane() {
    let w: u64 = 0x1122_3344_5566_7788;
    let (patched, orig) = patch_word(w, 0, TRAP_OPCODE);
    assert_eq!(orig, 0x88);
    assert_eq!(patched, 0x1122_3344_5566_77cc);
    let (patched, orig) = patch_word(w, 5, TRAP_OPCODE);
    assert_eq!(orig, 0x33);
    assert_eq!(patched, 0x1122_cc44_5566_7788);
    let (patched, orig) = patch_word(w, 7, 0x00);
    assert_eq!(orig, 0x11);
    assert_eq!(patched, 0x0022_3344_5566_7788);
}

#[test]
fn install_then_restore_gives_back_the_word() {
    let w: u64 = 0xdead_beef_0bad_f00d;
    for k in 0..8usize {
        let (trapped, orig) = patch_word(w, k, TRAP_OPCODE);
        let (restored, back) = patch_word(trapped, k, orig);
        assert_eq!(back, TRAP_OPCODE);
        assert_eq!(restored, w);
    }
}
