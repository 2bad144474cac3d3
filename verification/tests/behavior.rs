//! Loading, fetching, fault reporting, and the machine-level properties:
//! wraparound arithmetic, draw round trips, and the key-wait scan.

use chip8::{Chip8, Chip8Error, DISPLAY_W};

#[test]
fn test_load_rom_too_big_rejected() {
    let rom = vec![0u8; 4096 - 0x200 + 1];
    let r = Chip8::load_rom(&rom);
    assert_eq!(r.err(), Some(Chip8Error::RomTooBig));
}

#[test]
fn test_load_rom_max_size_accepted() {
    let rom = vec![0xABu8; 4096 - 0x200];
    let c = Chip8::load_rom(&rom).unwrap();
    assert_eq!(c.memory[0x200], 0xAB);
    assert_eq!(c.memory[4095], 0xAB);
    assert_eq!(c.pc, 0x200);
}

#[test]
fn test_load_rom_places_bytes_after_glyphs() {
    let c = Chip8::load_rom(&[0x12, 0x34, 0x56]).unwrap();
    assert_eq!(c.memory[0x200], 0x12);
    assert_eq!(c.memory[0x201], 0x34);
    assert_eq!(c.memory[0x202], 0x56);
    assert_eq!(c.memory[0x203], 0x00);
    // the glyph area is untouched
    assert_eq!(c.memory[0], 0xF0);
    assert_eq!(c.memory[79], 0x80);
}

#[test]
fn test_fetch_composes_big_endian() {
    let mut c = Chip8::load_rom(&[0x6A, 0xBC]).unwrap();
    assert!(c.can_step());
    c.execute_opcode().unwrap();
    assert_eq!(c.v[0xA], 0xBC);
    assert_eq!(c.pc, 0x202);
}

#[test]
fn test_decode_fault_leaves_state_unchanged() {
    for &op in &[0x00E1u16, 0x00FF, 0x800F, 0x8008, 0xE0FF, 0xF0FF, 0xF000] {
        let mut c = Chip8::init();
        c.delay_timer = 7;
        let r = c.execute_opcode_internal(op);
        assert_eq!(r.err(), Some(Chip8Error::DecodeFault));
        assert_eq!(c.pc, 0x200);
        assert_eq!(c.delay_timer, 7);
    }
}

#[test]
fn test_ret_underflow_is_fault() {
    let mut c = Chip8::init();
    let r = c.execute_opcode_internal(0x00EE);
    assert_eq!(r.err(), Some(Chip8Error::StackUnderflow));
    assert_eq!(c.pc, 0x200);
    assert_eq!(c.sp, 0);
}

#[test]
fn test_call_overflow_is_fault() {
    let mut c = Chip8::init();
    c.sp = 16;
    let r = c.execute_opcode_internal(0x2ABC);
    assert_eq!(r.err(), Some(Chip8Error::StackOverflow));
    assert_eq!(c.pc, 0x200);
    assert_eq!(c.sp, 16);
}

#[test]
fn test_call_then_ret_round_trip() {
    let mut c = Chip8::init();
    c.execute_opcode_internal(0x2ABC).unwrap();
    assert_eq!(c.stack[0], 0x200);
    assert_eq!(c.pc, 0xABC);
    c.execute_opcode_internal(0x00EE).unwrap();
    assert_eq!(c.pc, 0x200 + 2);
    assert_eq!(c.sp, 0);
}

#[test]
fn test_add1_wraps_modulo_256() {
    let mut c = Chip8::init();
    c.v[0xA] = 0xFF;
    c.execute_opcode_internal(0x7A02).unwrap();
    assert_eq!(c.v[0xA], 0x01);
    // the immediate add leaves the flag register alone
    assert_eq!(c.v[0xF], 0);
}

#[test]
fn test_sub_equal_values_no_borrow() {
    let mut c = Chip8::init();
    c.v[0xA] = 0x42;
    c.v[0xB] = 0x42;
    c.execute_opcode_internal(0x8AB5).unwrap();
    assert_eq!(c.v[0xA], 0x00);
    assert_eq!(c.v[0xF], 1);
}

#[test]
fn test_subn_equal_values_no_borrow() {
    let mut c = Chip8::init();
    c.v[0xA] = 0x42;
    c.v[0xB] = 0x42;
    c.execute_opcode_internal(0x8AB7).unwrap();
    assert_eq!(c.v[0xA], 0x00);
    assert_eq!(c.v[0xF], 1);
}

#[test]
fn test_bcd_boundaries() {
    let mut c = Chip8::init();
    c.i = 0x600;
    c.v[0x3] = 0;
    c.execute_opcode_internal(0xF333).unwrap();
    assert_eq!(&c.memory[0x600..0x603], &[0, 0, 0]);

    let mut c = Chip8::init();
    c.i = 0x600;
    c.v[0x3] = 255;
    c.execute_opcode_internal(0xF333).unwrap();
    assert_eq!(&c.memory[0x600..0x603], &[2, 5, 5]);
}

#[test]
fn test_timers_saturate_at_zero() {
    let mut c = Chip8::init();
    c.delay_timer = 1;
    c.sound_timer = 0;
    c.execute_opcode_internal(0x1ABC).unwrap();
    assert_eq!(c.delay_timer, 0);
    assert_eq!(c.sound_timer, 0);
    c.execute_opcode_internal(0x1ABC).unwrap();
    assert_eq!(c.delay_timer, 0);
    assert_eq!(c.sound_timer, 0);
}

#[test]
fn test_rnd_is_masked() {
    let mut c = Chip8::init();
    c.v[0xA] = 0xFF;
    c.execute_opcode_internal(0xCA0F).unwrap();
    assert_eq!(c.v[0xA] & 0xF0, 0);
    assert_eq!(c.pc, 0x202);

    let mut c = Chip8::init();
    c.v[0xA] = 0xFF;
    c.execute_opcode_internal(0xCA00).unwrap();
    assert_eq!(c.v[0xA], 0);
}

#[test]
fn test_drw_twice_restores_display() {
    let mut c = Chip8::init();
    c.i = 0x500;
    c.memory[0x500] = 0b10101011;
    c.memory[0x501] = 0b01110000;
    c.v[0xA] = 60;
    c.v[0xB] = 31;

    c.execute_opcode_internal(0xDAB2).unwrap();
    assert_eq!(c.v[0xF], 0);
    assert!(c.display.iter().any(|&x| x));

    c.execute_opcode_internal(0xDAB2).unwrap();
    // every pixel the first draw set is toggled off again, and toggling a
    // lit pixel off is a collision
    assert!(c.display.iter().all(|&x| x == false));
    assert_eq!(c.v[0xF], 1);
}

#[test]
fn test_key_wait_holds_pc_until_press() {
    let mut c = Chip8::load_rom(&[0xFA, 0x0A]).unwrap();
    c.execute_opcode().unwrap();
    c.execute_opcode().unwrap();
    c.execute_opcode().unwrap();
    assert_eq!(c.pc, 0x200);
    assert_eq!(c.v[0xA], 0);

    c.set_key(0x8);
    c.set_key(0x3);
    c.execute_opcode().unwrap();
    assert_eq!(c.pc, 0x202);
    // the lowest-indexed pressed key is stored
    assert_eq!(c.v[0xA], 0x3);
}

#[test]
fn test_ld05_lowest_of_two() {
    let mut c = Chip8::init();
    c.keyboard[0xC] = true;
    c.keyboard[0x4] = true;
    c.execute_opcode_internal(0xFA0A).unwrap();
    assert_eq!(c.v[0xA], 0x4);
    assert_eq!(c.pc, 0x202);
}

#[test]
fn test_skp_out_of_range_key_not_pressed() {
    let mut c = Chip8::init();
    c.v[0xA] = 0x20;
    c.execute_opcode_internal(0xEA9E).unwrap();
    assert_eq!(c.pc, 0x200 + 2);

    let mut c = Chip8::init();
    c.v[0xA] = 0x20;
    c.execute_opcode_internal(0xEAA1).unwrap();
    assert_eq!(c.pc, 0x200 + 2);
}

#[test]
fn test_set_and_reset_keys() {
    let mut c = Chip8::init();
    c.set_key(0x0);
    c.set_key(0xF);
    assert!(c.keyboard[0x0]);
    assert!(c.keyboard[0xF]);
    assert!(!c.keyboard[0x7]);
    c.reset_keys();
    assert!(c.keyboard.iter().all(|&k| !k));
}

#[test]
fn test_display_accessor_matches_framebuffer() {
    let mut c = Chip8::init();
    c.display[3 * DISPLAY_W + 2] = true;
    let view = c.display();
    assert_eq!(view.len(), 64 * 32);
    assert!(view[3 * DISPLAY_W + 2]);
    assert!(!view[0]);
}

#[test]
fn test_can_step_rejects_out_of_range_draw() {
    let mut c = Chip8::load_rom(&[0xDA, 0xB4]).unwrap();
    c.i = 4093;
    assert!(!c.can_step());
    c.i = 4092;
    assert!(c.can_step());
}
