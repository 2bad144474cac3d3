//! Per-instruction behavior, each case driven through `execute_opcode_internal`.

use chip8::{Chip8, DISPLAY_H, DISPLAY_W};

const HEX_SPRITES: [u8; 80] = [
    0xF0, 0x90, 0x90, 0x90, 0xF0, // 0
    0x20, 0x60, 0x20, 0x20, 0x70, // 1
    0xF0, 0x10, 0xF0, 0x80, 0xF0, // 2
    0xF0, 0x10, 0xF0, 0x10, 0xF0, // 3
    0x90, 0x90, 0xF0, 0x10, 0x10, // 4
    0xF0, 0x80, 0xF0, 0x10, 0xF0, // 5
    0xF0, 0x80, 0xF0, 0x90, 0xF0, // 6
    0xF0, 0x10, 0x20, 0x40, 0x40, // 7
    0xF0, 0x90, 0xF0, 0x90, 0xF0, // 8
    0xF0, 0x90, 0xF0, 0x10, 0xF0, // 9
    0xF0, 0x90, 0xF0, 0x90, 0x90, // A
    0xE0, 0x90, 0xE0, 0x90, 0xE0, // B
    0xF0, 0x80, 0x80, 0x80, 0xF0, // C
    0xE0, 0x90, 0x90, 0x90, 0xE0, // D
    0xF0, 0x80, 0xF0, 0x80, 0xF0, // E
    0xF0, 0x80, 0xF0, 0x80, 0x80, // F
];

#[test]
fn test_init() {
    let c = Chip8::init();

    assert_eq!(c.memory.len(), 4096);
    assert_eq!(c.memory[..80], HEX_SPRITES[..]);
    assert!(c.memory[80..].iter().all(|&x| x == 0));

    assert_eq!(c.v.len(), 16);
    assert!(c.v.iter().all(|&x| x == 0));

    assert_eq!(c.pc, 0x200);

    assert_eq!(c.stack.len(), 16);
    assert!(c.stack.iter().all(|&x| x == 0));

    assert_eq!(c.keyboard.len(), 16);
    assert!(c.keyboard.iter().all(|&x| x == false));

    assert_eq!(c.display.len(), 64 * 32);
}

#[test]
fn test_cls() {
    let mut c = Chip8::init();

    c.display[0] = true;
    c.display[31 * DISPLAY_W + 63] = true;

    c.execute_opcode_internal(0x00E0).unwrap();

    assert!(c.display.iter().all(|&x| x == false));
}

#[test]
fn test_ret() {
    let mut c = Chip8::init();

    c.sp = 5;
    c.stack[(c.sp - 1) as usize] = 0xEEE;

    c.execute_opcode_internal(0x00EE).unwrap();

    assert_eq!(c.sp, 4);
    assert_eq!(c.pc, 0xEEE + 2);
}

#[test]
fn test_jp1() {
    let mut c = Chip8::init();

    c.execute_opcode_internal(0x1ABC).unwrap();

    assert_eq!(c.pc, 0xABC);
}

#[test]
fn test_call() {
    let mut c = Chip8::init();

    c.execute_opcode_internal(0x2ABC).unwrap();

    assert_eq!(c.sp, 1);
    assert_eq!(c.stack[0], 0x200);
    assert_eq!(c.pc, 0xABC);
}

#[test]
fn test_se1_skip() {
    let mut c = Chip8::init();

    c.v[0xA] = 0xBC;

    c.execute_opcode_internal(0x3ABC).unwrap();

    assert_eq!(c.pc, 0x200 + 4);
}

#[test]
fn test_se1_noskip() {
    let mut c = Chip8::init();

    c.v[0xA] = 0xBD;

    c.execute_opcode_internal(0x3ABC).unwrap();

    assert_eq!(c.pc, 0x200 + 2);
}

#[test]
fn test_sne1_skip() {
    let mut c = Chip8::init();

    c.v[0xA] = 0xBD;

    c.execute_opcode_internal(0x4ABC).unwrap();

    assert_eq!(c.pc, 0x200 + 4);
}

#[test]
fn test_sne1_noskip() {
    let mut c = Chip8::init();

    c.v[0xA] = 0xBC;

    c.execute_opcode_internal(0x4ABC).unwrap();

    assert_eq!(c.pc, 0x200 + 2);
}

#[test]
fn test_se2_skip() {
    let mut c = Chip8::init();

    c.v[0xA] = 0xCD;
    c.v[0xB] = 0xCD;

    c.execute_opcode_internal(0x5AB0).unwrap();

    assert_eq!(c.pc, 0x200 + 4);
}

#[test]
fn test_se2_noskip() {
    let mut c = Chip8::init();

    c.v[0xA] = 0xCD;
    c.v[0xB] = 0xCE;

    c.execute_opcode_internal(0x5AB0).unwrap();

    assert_eq!(c.pc, 0x200 + 2);
}

#[test]
fn test_ld01() {
    let mut c = Chip8::init();

    c.execute_opcode_internal(0x6ABC).unwrap();

    assert_eq!(c.v[0xA], 0xBC);
}

#[test]
fn test_add1() {
    let mut c = Chip8::init();

    c.v[0xA] = 0x10;

    c.execute_opcode_internal(0x7ABC).unwrap();

    assert_eq!(c.v[0xA], 0x10 + 0xBC);
}

#[test]
fn test_ld02() {
    let mut c = Chip8::init();

    c.v[0xA] = 0xCD;
    c.v[0xB] = 0xEF;

    c.execute_opcode_internal(0x8AB0).unwrap();

    assert_eq!(c.v[0xA], 0xEF);
}

#[test]
fn test_or() {
    let mut c = Chip8::init();

    c.v[0xA] = 0xC0;
    c.v[0xB] = 0x0D;

    c.execute_opcode_internal(0x8AB1).unwrap();

    assert_eq!(c.v[0xA], 0xCD);
}

#[test]
fn test_and() {
    let mut c = Chip8::init();

    c.v[0xA] = 0xCD;
    c.v[0xB] = 0xCE;

    c.execute_opcode_internal(0x8AB2).unwrap();

    assert_eq!(c.v[0xA], 0xCC);
}

#[test]
fn test_xor() {
    let mut c = Chip8::init();

    c.v[0xA] = 0xCD;
    c.v[0xB] = 0xCE;

    c.execute_opcode_internal(0x8AB3).unwrap();

    assert_eq!(c.v[0xA], 0x03);
}

#[test]
fn test_add2_nocarry() {
    let mut c = Chip8::init();

    c.v[0xA] = 0x11;
    c.v[0xB] = 0x12;

    c.execute_opcode_internal(0x8AB4).unwrap();

    assert_eq!(c.v[0xA], 0x23);
    assert_eq!(c.v[0xF], 0);
}

#[test]
fn test_add2_carry() {
    let mut c = Chip8::init();

    c.v[0xA] = 0xFF;
    c.v[0xB] = 0xFF;

    c.execute_opcode_internal(0x8AB4).unwrap();

    assert_eq!(c.v[0xA], 0xFE);
    assert_eq!(c.v[0xF], 1);
}

#[test]
fn test_sub_noborrow() {
    let mut c = Chip8::init();

    c.v[0xA] = 0xFF;
    c.v[0xB] = 0xFE;

    c.execute_opcode_internal(0x8AB5).unwrap();

    assert_eq!(c.v[0xA], 0x01);
    assert_eq!(c.v[0xF], 1);
}

#[test]
fn test_sub_borrow() {
    let mut c = Chip8::init();

    c.v[0xA] = 0x11;
    c.v[0xB] = 0x12;

    c.execute_opcode_internal(0x8AB5).unwrap();

    assert_eq!(c.v[0xA], 0xFF);
    assert_eq!(c.v[0xF], 0);
}

#[test]
fn test_shr_nolsb() {
    let mut c = Chip8::init();

    c.v[0xA] = 0x22;

    c.execute_opcode_internal(0x8AB6).unwrap();

    assert_eq!(c.v[0xA], 0x11);
    assert_eq!(c.v[0xF], 0);
}

#[test]
fn test_shr_lsb() {
    let mut c = Chip8::init();

    c.v[0xA] = 0x21;

    c.execute_opcode_internal(0x8AB6).unwrap();

    assert_eq!(c.v[0xA], 0x10);
    assert_eq!(c.v[0xF], 1);
}

#[test]
fn test_subn_borrow() {
    let mut c = Chip8::init();

    c.v[0xA] = 0xFF;
    c.v[0xB] = 0xFE;

    c.execute_opcode_internal(0x8AB7).unwrap();

    assert_eq!(c.v[0xA], 0xFF);
    assert_eq!(c.v[0xF], 0);
}

#[test]
fn test_subn_noborrow() {
    let mut c = Chip8::init();

    c.v[0xA] = 0x11;
    c.v[0xB] = 0x12;

    c.execute_opcode_internal(0x8AB7).unwrap();

    assert_eq!(c.v[0xA], 0x01);
    assert_eq!(c.v[0xF], 1);
}

#[test]
fn test_shr_nomsb() {
    let mut c = Chip8::init();

    c.v[0xA] = 0x22;

    c.execute_opcode_internal(0x8ABE).unwrap();

    assert_eq!(c.v[0xA], 0x44);
    assert_eq!(c.v[0xF], 0);
}

#[test]
fn test_shr_msb() {
    let mut c = Chip8::init();

    c.v[0xA] = 0xC0;

    c.execute_opcode_internal(0x8ABE).unwrap();

    assert_eq!(c.v[0xA], 0x80);
    assert_eq!(c.v[0xF], 1);
}

#[test]
fn test_sne2_noskip() {
    let mut c = Chip8::init();

    c.v[0xA] = 0xCD;
    c.v[0xB] = 0xCD;

    c.execute_opcode_internal(0x9AB0).unwrap();

    assert_eq!(c.pc, 0x200 + 2);
}

#[test]
fn test_sne2_skip() {
    let mut c = Chip8::init();

    c.v[0xA] = 0xCD;
    c.v[0xB] = 0xCE;

    c.execute_opcode_internal(0x9AB0).unwrap();

    assert_eq!(c.pc, 0x200 + 4);
}

#[test]
fn test_ld03() {
    let mut c = Chip8::init();

    c.execute_opcode_internal(0xA123).unwrap();

    assert_eq!(c.i, 0x123);
}

#[test]
fn test_jp2() {
    let mut c = Chip8::init();

    c.v[0] = 0x55;

    c.execute_opcode_internal(0xB123).unwrap();

    assert_eq!(c.pc, 0x178);
}

#[test]
fn test_add3() {
    let mut c = Chip8::init();

    c.v[0xA] = 0x10;
    c.i = 0xAB0C;

    c.execute_opcode_internal(0xFA1E).unwrap();

    assert_eq!(c.i, 0xAB1C);
}

#[test]
fn test_drw_nowrap() {
    let mut c = Chip8::init();

    c.i = 0x500;
    c.memory[0x500] = 0b00011000;
    c.memory[0x501] = 0b00100100;
    c.memory[0x502] = 0b01000010;
    c.memory[0x503] = 0b10000001;
    c.v[0xA] = 0x05;
    c.v[0xB] = 0x0A;

    c.execute_opcode_internal(0xDAB4).unwrap();

    let i = 0x0A * DISPLAY_W;
    assert!(c.display[..i].iter().all(|&x| x == false));

    let i = (0x0A + 4) * DISPLAY_W;
    assert!(c.display[i..].iter().all(|&x| x == false));

    let i = 0x0A * DISPLAY_W + 0x05;
    assert_eq!(
        &c.display[i..(i + 8)],
        &[false, false, false, true, true, false, false, false]
    );

    let i = 0x0B * DISPLAY_W + 0x05;
    assert_eq!(
        &c.display[i..(i + 8)],
        &[false, false, true, false, false, true, false, false]
    );

    let i = 0x0C * DISPLAY_W + 0x05;
    assert_eq!(
        &c.display[i..(i + 8)],
        &[false, true, false, false, false, false, true, false]
    );

    let i = 0x0D * DISPLAY_W + 0x05;
    assert_eq!(
        &c.display[i..(i + 8)],
        &[true, false, false, false, false, false, false, true]
    );

    assert_eq!(c.v[0xF], 0);
}

#[test]
fn test_drw_wrapx() {
    let mut c = Chip8::init();

    c.i = 0x500;
    c.memory[0x500] = 0b10101011;
    c.v[0xA] = 60;
    c.v[0xB] = 0;

    c.execute_opcode_internal(0xDAB1).unwrap();

    assert_eq!(&c.display[60..DISPLAY_W], &[true, false, true, false]);
    assert_eq!(&c.display[..4], &[true, false, true, true]);
    assert_eq!(c.v[0xF], 0);
}

#[test]
fn test_drw_wrapy() {
    let mut c = Chip8::init();

    c.i = 0x500;
    c.memory[0x500] = 0b10000000;
    c.memory[0x501] = 0b01000000;
    c.memory[0x502] = 0b00100000;
    c.memory[0x503] = 0b00010000;
    c.v[0xA] = 0;
    c.v[0xB] = 30;

    c.execute_opcode_internal(0xDAB4).unwrap();

    let i = 30 * DISPLAY_W;
    assert_eq!(&c.display[i..(i + 4)], &[true, false, false, false]);

    let i = 31 * DISPLAY_W;
    assert_eq!(&c.display[i..(i + 4)], &[false, true, false, false]);

    let i = 0 * DISPLAY_W;
    assert_eq!(&c.display[i..(i + 4)], &[false, false, true, false]);

    let i = 1 * DISPLAY_W;
    assert_eq!(&c.display[i..(i + 4)], &[false, false, false, true]);

    assert_eq!(c.v[0xF], 0);
}

#[test]
fn test_drw_collision() {
    let mut c = Chip8::init();

    c.i = 0x500;
    c.memory[0x500] = 0b11000000;
    c.v[0xA] = 0;
    c.v[0xB] = 0;
    c.display[0] = true;

    c.execute_opcode_internal(0xDAB1).unwrap();

    assert_eq!(c.display[0], false);
    assert_eq!(c.display[1], true);
    assert_eq!(c.v[0xF], 1);
}

#[test]
fn test_skp_press() {
    let mut c = Chip8::init();

    c.v[0xA] = 0x05;
    c.keyboard[0x05] = true;

    c.execute_opcode_internal(0xEA9E).unwrap();

    assert_eq!(c.pc, 0x200 + 4);
}

#[test]
fn test_skp_nopress() {
    let mut c = Chip8::init();

    c.v[0xA] = 0x05;
    c.keyboard[0x05] = false;

    c.execute_opcode_internal(0xEA9E).unwrap();

    assert_eq!(c.pc, 0x200 + 2);
}

#[test]
fn test_sknp_press() {
    let mut c = Chip8::init();

    c.v[0xA] = 0x05;
    c.keyboard[0x05] = true;

    c.execute_opcode_internal(0xEAA1).unwrap();

    assert_eq!(c.pc, 0x200 + 2);
}

#[test]
fn test_sknp_nopress() {
    let mut c = Chip8::init();

    c.v[0xA] = 0x05;
    c.keyboard[0x05] = false;

    c.execute_opcode_internal(0xEAA1).unwrap();

    assert_eq!(c.pc, 0x200 + 4);
}

#[test]
fn test_ld04() {
    let mut c = Chip8::init();

    c.delay_timer = 0xAB;
    c.execute_opcode_internal(0xFA07).unwrap();

    assert_eq!(c.v[0xA], 0xAB);
}

#[test]
fn test_ld05_press() {
    let mut c = Chip8::init();

    c.keyboard[0x05] = true;

    c.execute_opcode_internal(0xFA0A).unwrap();

    assert_eq!(c.v[0xA], 0x05);
    assert_eq!(c.pc, 0x200 + 2);
}

#[test]
fn test_ld05_nopress() {
    let mut c = Chip8::init();

    c.execute_opcode_internal(0xFA0A).unwrap();

    assert_eq!(c.v[0xA], 0x0);
    assert_eq!(c.pc, 0x200);
}

#[test]
fn test_ld06() {
    let mut c = Chip8::init();

    c.v[0xA] = 0xCD;
    c.execute_opcode_internal(0xFA15).unwrap();

    assert_eq!(c.delay_timer, 0xCD - 1);
}

#[test]
fn test_ld07() {
    let mut c = Chip8::init();

    c.v[0xA] = 0xCD;
    c.execute_opcode_internal(0xFA18).unwrap();

    assert_eq!(c.sound_timer, 0xCD - 1);
}

#[test]
fn test_ld08() {
    let mut c = Chip8::init();

    c.v[0xA] = 0x2;
    c.execute_opcode_internal(0xFA29).unwrap();

    assert_eq!(c.i, 0xA);
    assert_eq!(c.memory[(c.i as usize)], 0xF0);
    assert_eq!(c.memory[(c.i as usize) + 1], 0x10);
    assert_eq!(c.memory[(c.i as usize) + 2], 0xF0);
    assert_eq!(c.memory[(c.i as usize) + 3], 0x80);
    assert_eq!(c.memory[(c.i as usize) + 4], 0xF0);
}

#[test]
fn test_ld09() {
    let mut c = Chip8::init();

    c.i = 0x500;
    c.v[0xA] = 234;
    c.execute_opcode_internal(0xFA33).unwrap();

    assert_eq!(c.memory[0x500], 0x2);
    assert_eq!(c.memory[0x501], 0x3);
    assert_eq!(c.memory[0x502], 0x4);
    assert_eq!(c.memory[0x503], 0x0);
}

#[test]
fn test_ld10() {
    let mut c = Chip8::init();

    c.i = 0x500;
    c.v[0x0] = 0x1;
    c.v[0x1] = 0xA;
    c.v[0x2] = 0xF;
    c.execute_opcode_internal(0xF255).unwrap();

    assert_eq!(c.memory[0x500], 0x1);
    assert_eq!(c.memory[0x501], 0xA);
    assert_eq!(c.memory[0x502], 0xF);
    assert_eq!(c.memory[0x503], 0x0);
}

#[test]
fn test_ld11() {
    let mut c = Chip8::init();

    c.i = 0x500;
    c.memory[0x500] = 0x1;
    c.memory[0x501] = 0xA;
    c.memory[0x502] = 0xF;
    c.execute_opcode_internal(0xF265).unwrap();

    assert_eq!(c.v[0x0], 0x1);
    assert_eq!(c.v[0x1], 0xA);
    assert_eq!(c.v[0x2], 0xF);
    assert_eq!(c.v[0x3], 0x0);
}
