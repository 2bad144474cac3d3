//! The executable CHIP-8 machine and its verified instruction handlers.

use crate::machine::{
    add1_spec, add2_spec, add3_spec, and_spec, call_spec, cls_spec, hex_sprites_spec, init_spec,
    jp1_spec, jp2_spec, ld01_spec, ld02_spec, ld03_spec, ld04_spec, ld06_spec, ld07_spec,
    ld08_spec, ld09_spec, ld10_spec, ld11_spec, lemma_op_fields, op_n, op_x, or_spec, ret_spec,
    rnd_spec, se1_spec, se2_spec, shl_spec, shr_spec, skp_spec, sknp_spec, sne1_spec, sne2_spec,
    sub_spec, subn_spec, xor_spec, Chip8View, DISPLAY_H, DISPLAY_W, GLYPH_BYTES, MEMORY_SIZE,
    NUM_KEYS, NUM_REGISTERS, STACK_DEPTH,
};
use crate::machine::{
    draw_coll_upto, draw_flips, draw_flips_upto, drw_spec, first_pressed, first_pressed_from,
    ld05_spec, lemma_current_untouched, lemma_draw_upto_full, lemma_draw_upto_none,
    lemma_draw_upto_row, lemma_draw_upto_step, lemma_pix_bounds, pix, spr_bit,
};
use crate::machine::{
    fetched, known_opcode, lemma_op_family, load_spec, op_apply, step_fault, step_ready,
    step_spec, tick_timers, Chip8Error, MAX_ROM_LEN, PROGRAM_START,
};
use vstd::prelude::*;

verus! {

/// The complete machine state: memory, registers, timers, program counter,
/// call stack, keypad and framebuffer, owned as one aggregate.
///
/// The fields are public so that a driver or a test can seed and inspect the
/// state directly; every verified method requires and preserves [`Chip8::wf`].
#[derive(Debug)]
pub struct Chip8 {
    /// 4096 bytes of RAM.
    pub memory: Vec<u8>,
    /// 16 general-purpose 8-bit registers; register 0xF doubles as the flag.
    pub v: Vec<u8>,
    /// The 16-bit index register.
    pub i: u16,
    /// Decremented once per executed instruction while nonzero.
    pub delay_timer: u8,
    /// Decremented once per executed instruction while nonzero.
    pub sound_timer: u8,
    /// Address of the next instruction.
    pub pc: u16,
    /// Number of call-stack slots in use, 0 through 16.
    pub sp: u8,
    /// 16 return-address slots.
    pub stack: Vec<u16>,
    /// Pressed-state of the 16 keypad keys.
    pub keyboard: Vec<bool>,
    /// 64 x 32 monochrome pixels, row-major.
    pub display: Vec<bool>,
}

impl View for Chip8 {
    type V = Chip8View;

    open spec fn view(&self) -> Chip8View {
        Chip8View {
            memory: self.memory@,
            v: self.v@,
            i: self.i,
            delay_timer: self.delay_timer,
            sound_timer: self.sound_timer,
            pc: self.pc,
            sp: self.sp,
            stack: self.stack@,
            keyboard: self.keyboard@,
            display: self.display@,
        }
    }
}

/// A vector holding `n` copies of `val`.
fn filled<T: Copy>(n: usize, val: T) -> (r: Vec<T>)
    ensures
        r@.len() == n,
        forall|k: int| 0 <= k < n ==> r@[k] == val,
{
    let mut r: Vec<T> = Vec::new();
    let mut j: usize = 0;
    while j < n
        invariant
            j <= n,
            r@.len() == j,
            forall|k: int| 0 <= k < j ==> r@[k] == val,
        decreases n - j,
    {
        r.push(val);
        j += 1;
    }
    r
}

/// Relies on `rand::random` for a uniformly random byte; nothing is assumed
/// of the value that comes back.
#[verifier::external_body]
fn random_byte() -> (r: u8) {
    rand::random()
}

/// The glyph sprite table, as a vector.
fn hex_sprites() -> (r: Vec<u8>)
    ensures
        r@ == hex_sprites_spec(),
{
    let r: Vec<u8> = vec![
        0xF0u8, 0x90, 0x90, 0x90, 0xF0, // 0
        0x20, 0x60, 0x20, 0x20, 0x70, // 1
        0xF0, 0x10, 0xF0, 0x80, 0xF0, // 2
        0xF0, 0x10, 0xF0, 0x10, 0xF0, // 3
        0x90, 0x90, 0xF0, 0x10, 0x10, // 4
        0xF0, 0x80, 0xF0, 0x10, 0xF0, // 5
        0xF0, 0x80, 0xF0, 0x90, 0xF0, // 6
        0xF0, 0x10, 0x20, 0x40, 0x40, // 7
        0xF0, 0x90, 0xF0, 0x90, 0xF0, // 8
        0xF0, 0x90, 0xF0, 0x10, 0xF0, // 9
        0xF0, 0x90, 0xF0, 0x90, 0x90, // A
        0xE0, 0x90, 0xE0, 0x90, 0xE0, // B
        0xF0, 0x80, 0x80, 0x80, 0xF0, // C
        0xE0, 0x90, 0x90, 0x90, 0xE0, // D
        0xF0, 0x80, 0xF0, 0x80, 0xF0, // E
        0xF0, 0x80, 0xF0, 0x80, 0x80, // F
    ];
    assert(r@ =~= hex_sprites_spec());
    r
}

impl Chip8 {
    /// The machine state has its fixed component sizes.
    pub open spec fn wf(self) -> bool {
        self@.wf()
    }

    /// A fresh machine: glyphs in low memory, everything else zeroed,
    /// execution set to begin at `PROGRAM_START`.
    pub fn init() -> (c: Chip8)
        ensures
            c.wf(),
            c@ == init_spec(),
    {
        let mut memory = hex_sprites();
        while memory.len() < MEMORY_SIZE
            invariant
                GLYPH_BYTES <= memory@.len() <= MEMORY_SIZE,
                memory@.subrange(0, GLYPH_BYTES as int) == hex_sprites_spec(),
                forall|k: int| GLYPH_BYTES <= k < memory@.len() ==> memory@[k] == 0,
            decreases MEMORY_SIZE - memory@.len(),
        {
            memory.push(0);
            assert(memory@.subrange(0, GLYPH_BYTES as int) =~= hex_sprites_spec());
        }

        let c = Chip8 {
            memory,
            v: filled(NUM_REGISTERS, 0u8),
            i: 0,
            delay_timer: 0,
            sound_timer: 0,
            pc: 0x200,
            sp: 0,
            stack: filled(STACK_DEPTH, 0u16),
            keyboard: filled(NUM_KEYS, false),
            display: filled(DISPLAY_W * DISPLAY_H, false),
        };
        assert forall|k: int| 0 <= k < GLYPH_BYTES implies c.memory@[k]
            == hex_sprites_spec()[k] by {
            assert(c.memory@[k] == c.memory@.subrange(0, GLYPH_BYTES as int)[k]);
        }
        assert(c@ =~= init_spec());
        c
    }

    /// A read-only view of the framebuffer pixels, row-major.
    pub fn display(&self) -> (r: &[bool])
        ensures
            r@ == self@.display,
    {
        self.display.as_slice()
    }

    /// Builds a machine with the program image `rom` loaded at
    /// `PROGRAM_START`, or reports that the image does not fit: loading
    /// succeeds exactly when the image is at most `MAX_ROM_LEN` bytes.
    pub fn load_rom(rom: &[u8]) -> (r: Result<Chip8, Chip8Error>)
        ensures
            rom@.len() <= MAX_ROM_LEN ==> (r matches Ok(c) && c.wf() && c@ == load_spec(rom@)),
            rom@.len() > MAX_ROM_LEN ==> r == Err::<Chip8, Chip8Error>(Chip8Error::RomTooBig),
    {
        let mut chip8 = Chip8::init();

        if rom.len() > MAX_ROM_LEN {
            return Err(Chip8Error::RomTooBig);
        }
        let mut j: usize = 0;
        while j < rom.len()
            invariant
                rom@.len() <= MAX_ROM_LEN,
                j <= rom@.len(),
                chip8.wf(),
                chip8@ == (Chip8View { memory: chip8.memory@, ..init_spec() }),
                forall|k: int|
                    0 <= k < MEMORY_SIZE && !(PROGRAM_START <= k < PROGRAM_START + j)
                        ==> chip8.memory@[k] == init_spec().memory[k],
                forall|t: int| 0 <= t < j ==> chip8.memory@[PROGRAM_START + t] == rom@[t],
            decreases rom@.len() - j,
        {
            chip8.memory[PROGRAM_START + j] = rom[j];
            j += 1;
        }
        assert(chip8@ =~= load_spec(rom@));
        Ok(chip8)
    }

    /// Fetches the two instruction bytes at the program counter, composes
    /// them most significant byte first, and executes the result as one step.
    pub fn execute_opcode(&mut self) -> (r: Result<(), Chip8Error>)
        requires
            old(self).wf(),
            old(self)@.pc + 1 < MEMORY_SIZE,
            step_ready(old(self)@, fetched(old(self)@)),
        ensures
            final(self).wf(),
            r is Ok <==> step_fault(old(self)@, fetched(old(self)@)) is None,
            r matches Err(e) ==> final(self)@ == old(self)@ && Some(e) == step_fault(
                old(self)@,
                fetched(old(self)@),
            ),
            r is Ok ==> exists|rb: u8|
                final(self)@ == step_spec(old(self)@, fetched(old(self)@), rb),
            r is Ok && (fetched(old(self)@) & 0xF000) != 0xC000 ==> final(self)@ == step_spec(
                old(self)@,
                fetched(old(self)@),
                0,
            ),
    {
        // Instructions are two bytes, stored most significant byte first.
        let hi = self.memory[self.pc as usize] as u16;
        let lo = self.memory[(self.pc as usize) + 1] as u16;
        let opcode = hi << 8u16 | lo;
        assert(opcode == fetched(self@));

        self.execute_opcode_internal(opcode)
    }

    /// Decodes and executes one instruction word, then ticks both timers.
    ///
    /// Succeeds exactly when the word decodes and the stack allows it; a
    /// failed step reports why and leaves the machine untouched. On success
    /// the machine steps to `step_spec` of the old state, for some drawn
    /// byte `rb` that only the randomization instruction reads.
    #[verifier::rlimit(100)]
    pub fn execute_opcode_internal(&mut self, opcode: u16) -> (r: Result<(), Chip8Error>)
        requires
            old(self).wf(),
            step_ready(old(self)@, opcode),
        ensures
            final(self).wf(),
            r is Ok <==> step_fault(old(self)@, opcode) is None,
            r matches Err(e) ==> final(self)@ == old(self)@ && Some(e) == step_fault(
                old(self)@,
                opcode,
            ),
            r is Ok ==> exists|rb: u8| final(self)@ == step_spec(old(self)@, opcode, rb),
            r is Ok && (opcode & 0xF000) != 0xC000 ==> final(self)@ == step_spec(
                old(self)@,
                opcode,
                0,
            ),
    {
        let ghost s0 = old(self)@;
        let ghost mut rbg: u8 = 0;
        match opcode & 0xF000 {
            0x0000 => match opcode {
                0x00E0 => {
                    self.cls();
                    proof {
                        assert(self@ == op_apply(s0, opcode, rbg));
                    }
                },
                0x00EE => {
                    if self.sp == 0 {
                        return Err(Chip8Error::StackUnderflow);
                    }
                    self.ret();
                    proof {
                        assert(self@ == op_apply(s0, opcode, rbg));
                    }
                },
                _ => {
                    proof {
                        lemma_op_fields(opcode);
                        assert(!known_opcode(opcode));
                    }
                    return Err(Chip8Error::DecodeFault);
                },
            },
            0x1000 => {
                self.jp1(opcode);
                proof {
                    assert(self@ == op_apply(s0, opcode, rbg));
                }
            },
            0x2000 => {
                if self.sp >= STACK_DEPTH as u8 {
                    return Err(Chip8Error::StackOverflow);
                }
                self.call(opcode);
                proof {
                    assert(self@ == op_apply(s0, opcode, rbg));
                }
            },
            0x3000 => {
                self.se1(opcode);
                proof {
                    assert(self@ == op_apply(s0, opcode, rbg));
                }
            },
            0x4000 => {
                self.sne1(opcode);
                proof {
                    assert(self@ == op_apply(s0, opcode, rbg));
                }
            },
            0x5000 => {
                self.se2(opcode);
                proof {
                    assert(self@ == op_apply(s0, opcode, rbg));
                }
            },
            0x6000 => {
                self.ld01(opcode);
                proof {
                    assert(self@ == op_apply(s0, opcode, rbg));
                }
            },
            0x7000 => {
                self.add1(opcode);
                proof {
                    assert(self@ == op_apply(s0, opcode, rbg));
                }
            },
            0x8000 => match opcode & 0x000F {
                0x0000 => {
                    self.ld02(opcode);
                    proof {
                        assert(self@ == op_apply(s0, opcode, rbg));
                    }
                },
                0x0001 => {
                    self.or(opcode);
                    proof {
                        assert(self@ == op_apply(s0, opcode, rbg));
                    }
                },
                0x0002 => {
                    self.and(opcode);
                    proof {
                        assert(self@ == op_apply(s0, opcode, rbg));
                    }
                },
                0x0003 => {
                    self.xor(opcode);
                    proof {
                        assert(self@ == op_apply(s0, opcode, rbg));
                    }
                },
                0x0004 => {
                    self.add2(opcode);
                    proof {
                        assert(self@ == op_apply(s0, opcode, rbg));
                    }
                },
                0x0005 => {
                    self.sub(opcode);
                    proof {
                        assert(self@ == op_apply(s0, opcode, rbg));
                    }
                },
                0x0006 => {
                    self.shr(opcode);
                    proof {
                        assert(self@ == op_apply(s0, opcode, rbg));
                    }
                },
                0x0007 => {
                    self.subn(opcode);
                    proof {
                        assert(self@ == op_apply(s0, opcode, rbg));
                    }
                },
                0x000E => {
                    self.shl(opcode);
                    proof {
                        assert(self@ == op_apply(s0, opcode, rbg));
                    }
                },
                _ => {
                    proof {
                        lemma_op_fields(opcode);
                        assert(!known_opcode(opcode));
                    }
                    return Err(Chip8Error::DecodeFault);
                },
            },
            0x9000 => {
                self.sne2(opcode);
                proof {
                    assert(self@ == op_apply(s0, opcode, rbg));
                }
            },
            0xA000 => {
                self.ld03(opcode);
                proof {
                    assert(self@ == op_apply(s0, opcode, rbg));
                }
            },
            0xB000 => {
                self.jp2(opcode);
                proof {
                    assert(self@ == op_apply(s0, opcode, rbg));
                }
            },
            0xC000 => {
                self.rnd(opcode);
                proof {
                    rbg = choose|rb: u8| self@ == rnd_spec(s0, opcode, rb);
                    assert(self@ == op_apply(s0, opcode, rbg));
                }
            },
            0xD000 => {
                self.drw(opcode);
                proof {
                    assert(self@ == op_apply(s0, opcode, rbg));
                }
            },
            0xE000 => match opcode & 0x00FF {
                0x009E => {
                    self.skp(opcode);
                    proof {
                        assert(self@ == op_apply(s0, opcode, rbg));
                    }
                },
                0x00A1 => {
                    self.sknp(opcode);
                    proof {
                        assert(self@ == op_apply(s0, opcode, rbg));
                    }
                },
                _ => {
                    proof {
                        lemma_op_fields(opcode);
                        assert(!known_opcode(opcode));
                    }
                    return Err(Chip8Error::DecodeFault);
                },
            },
            0xF000 => match opcode & 0x00FF {
                0x0007 => {
                    self.ld04(opcode);
                    proof {
                        assert(self@ == op_apply(s0, opcode, rbg));
                    }
                },
                0x000A => {
                    self.ld05(opcode);
                    proof {
                        assert(self@ == op_apply(s0, opcode, rbg));
                    }
                },
                0x0015 => {
                    self.ld06(opcode);
                    proof {
                        assert(self@ == op_apply(s0, opcode, rbg));
                    }
                },
                0x0018 => {
                    self.ld07(opcode);
                    proof {
                        assert(self@ == op_apply(s0, opcode, rbg));
                    }
                },
                0x001E => {
                    self.add3(opcode);
                    proof {
                        assert(self@ == op_apply(s0, opcode, rbg));
                    }
                },
                0x0029 => {
                    self.ld08(opcode);
                    proof {
                        assert(self@ == op_apply(s0, opcode, rbg));
                    }
                },
                0x0033 => {
                    self.ld09(opcode);
                    proof {
                        assert(self@ == op_apply(s0, opcode, rbg));
                    }
                },
                0x0055 => {
                    self.ld10(opcode);
                    proof {
                        assert(self@ == op_apply(s0, opcode, rbg));
                    }
                },
                0x0065 => {
                    self.ld11(opcode);
                    proof {
                        assert(self@ == op_apply(s0, opcode, rbg));
                    }
                },
                _ => {
                    proof {
                        lemma_op_fields(opcode);
                        assert(!known_opcode(opcode));
                    }
                    return Err(Chip8Error::DecodeFault);
                },
            },
            _ => {
                proof {
                    lemma_op_family(opcode);
                }
                return Err(Chip8Error::DecodeFault);
            },
        }
        let ghost mid = self@;
        assert(mid == op_apply(s0, opcode, rbg));
        assert(known_opcode(opcode) && step_fault(s0, opcode) is None);

        if self.delay_timer > 0 {
            self.delay_timer = self.delay_timer - 1;
        }
        if self.sound_timer > 0 {
            self.sound_timer = self.sound_timer - 1;
        }
        proof {
            assert(self@ =~= tick_timers(mid));
            assert(self@ == step_spec(s0, opcode, rbg));
            if opcode & 0xF000 != 0xC000 {
                assert(op_apply(s0, opcode, rbg) == op_apply(s0, opcode, 0));
            }
        }
        Ok(())
    }

    /// Whether the machine-limit side conditions of `step_ready` hold for the
    /// instruction word at the program counter, so that `execute_opcode` can
    /// be called: the fetch and every address the instruction touches stay in
    /// bounds.
    pub fn can_step(&self) -> (b: bool)
        requires
            self.wf(),
        ensures
            b == (self@.pc + 1 < MEMORY_SIZE && step_ready(self@, fetched(self@))),
    {
        if !((self.pc as usize) + 1 < MEMORY_SIZE) {
            return false;
        }
        let hi = self.memory[self.pc as usize] as u16;
        let lo = self.memory[(self.pc as usize) + 1] as u16;
        let op = hi << 8u16 | lo;
        assert(op == fetched(self@));
        proof {
            lemma_op_fields(op);
        }
        let fam = op & 0xF000;

        let mut ok = true;
        if fam == 0x0000 && op == 0x00EE && self.sp >= 1 {
            if !(self.stack[(self.sp - 1) as usize] <= u16::MAX - 2) {
                ok = false;
            }
        }
        if fam != 0x1000 && fam != 0x2000 && fam != 0xB000 && !(fam == 0x0000 && op == 0x00EE) {
            if !(self.pc <= u16::MAX - 4) {
                ok = false;
            }
        }
        if fam == 0xD000 {
            if !((self.i as usize) + ((op & 0x000F) as usize) <= MEMORY_SIZE) {
                ok = false;
            }
        }
        if fam == 0xF000 && (op & 0x00FF) == 0x001E {
            let vx = self.v[((op & 0x0F00) >> 8) as usize];
            if !(self.i <= u16::MAX - (vx as u16)) {
                ok = false;
            }
        }
        if fam == 0xF000 && (op & 0x00FF) == 0x0033 {
            if !((self.i as usize) + 3 <= MEMORY_SIZE) {
                ok = false;
            }
        }
        if fam == 0xF000 && ((op & 0x00FF) == 0x0055 || (op & 0x00FF) == 0x0065) {
            if !((self.i as usize) + (((op & 0x0F00) >> 8) as usize) < MEMORY_SIZE) {
                ok = false;
            }
        }
        ok
    }

    /// Marks keypad key `key` as pressed.
    pub fn set_key(&mut self, key: u8)
        requires
            old(self).wf(),
            key < NUM_KEYS,
        ensures
            final(self).wf(),
            final(self)@ == (Chip8View {
                keyboard: old(self)@.keyboard.update(key as int, true),
                ..old(self)@
            }),
    {
        self.keyboard[key as usize] = true;
        assert(self@ =~= (Chip8View {
            keyboard: old(self)@.keyboard.update(key as int, true),
            ..old(self)@
        }));
    }

    /// `00E0`: clear the display.
    pub fn cls(&mut self)
        requires
            old(self).wf(),
            old(self)@.pc + 2 <= u16::MAX,
        ensures
            final(self).wf(),
            final(self)@ == cls_spec(old(self)@),
    {
        let mut p: usize = 0;
        while p < DISPLAY_W * DISPLAY_H
            invariant
                old(self).wf(),
                p <= DISPLAY_W * DISPLAY_H,
                self.wf(),
                forall|q: int| 0 <= q < p ==> !self.display@[q],
                self@ == (Chip8View { display: self.display@, ..old(self)@ }),
            decreases DISPLAY_W * DISPLAY_H - p,
        {
            self.display[p] = false;
            p += 1;
        }
        self.pc = self.pc + 2;
        assert(self@ =~= cls_spec(old(self)@));
    }

    /// `00EE`: return from a subroutine.
    pub fn ret(&mut self)
        requires
            old(self).wf(),
            old(self)@.sp >= 1,
            old(self)@.stack[old(self)@.sp - 1] + 2 <= u16::MAX,
        ensures
            final(self).wf(),
            final(self)@ == ret_spec(old(self)@),
    {
        self.sp = self.sp - 1;
        self.pc = self.stack[self.sp as usize];
        self.pc = self.pc + 2;
        assert(self@ =~= ret_spec(old(self)@));
    }

    /// `1nnn`: jump to address `nnn`.
    pub fn jp1(&mut self, opcode: u16)
        requires
            old(self).wf(),
        ensures
            final(self).wf(),
            final(self)@ == jp1_spec(old(self)@, opcode),
    {
        let nnn = opcode & 0x0FFF;
        self.pc = nnn;
        assert(self@ =~= jp1_spec(old(self)@, opcode));
    }

    /// `2nnn`: call the subroutine at `nnn`.
    pub fn call(&mut self, opcode: u16)
        requires
            old(self).wf(),
            old(self)@.sp < STACK_DEPTH,
        ensures
            final(self).wf(),
            final(self)@ == call_spec(old(self)@, opcode),
    {
        self.stack[self.sp as usize] = self.pc;
        self.sp = self.sp + 1;
        self.pc = opcode & 0x0FFF;
        assert(self@ =~= call_spec(old(self)@, opcode));
    }

    /// `3xkk`: skip the next instruction if `Vx == kk`.
    pub fn se1(&mut self, opcode: u16)
        requires
            old(self).wf(),
            old(self)@.pc + 4 <= u16::MAX,
        ensures
            final(self).wf(),
            final(self)@ == se1_spec(old(self)@, opcode),
    {
        proof {
            lemma_op_fields(opcode);
        }
        let x = ((opcode & 0x0F00) >> 8) as usize;
        let kk = (opcode & 0x00FF) as u8;

        self.pc = self.pc + if self.v[x] == kk {
            4
        } else {
            2
        };
        assert(self@ =~= se1_spec(old(self)@, opcode));
    }

    /// `4xkk`: skip the next instruction if `Vx != kk`.
    pub fn sne1(&mut self, opcode: u16)
        requires
            old(self).wf(),
            old(self)@.pc + 4 <= u16::MAX,
        ensures
            final(self).wf(),
            final(self)@ == sne1_spec(old(self)@, opcode),
    {
        proof {
            lemma_op_fields(opcode);
        }
        let x = ((opcode & 0x0F00) >> 8) as usize;
        let kk = (opcode & 0x00FF) as u8;

        self.pc = self.pc + if self.v[x] != kk {
            4
        } else {
            2
        };
        assert(self@ =~= sne1_spec(old(self)@, opcode));
    }

    /// `5xy0`: skip the next instruction if `Vx == Vy`.
    pub fn se2(&mut self, opcode: u16)
        requires
            old(self).wf(),
            old(self)@.pc + 4 <= u16::MAX,
        ensures
            final(self).wf(),
            final(self)@ == se2_spec(old(self)@, opcode),
    {
        proof {
            lemma_op_fields(opcode);
        }
        let x = ((opcode & 0x0F00) >> 8) as usize;
        let y = ((opcode & 0x00F0) >> 4) as usize;

        self.pc = self.pc + if self.v[x] == self.v[y] {
            4
        } else {
            2
        };
        assert(self@ =~= se2_spec(old(self)@, opcode));
    }

    /// `9xy0`: skip the next instruction if `Vx != Vy`.
    pub fn sne2(&mut self, opcode: u16)
        requires
            old(self).wf(),
            old(self)@.pc + 4 <= u16::MAX,
        ensures
            final(self).wf(),
            final(self)@ == sne2_spec(old(self)@, opcode),
    {
        proof {
            lemma_op_fields(opcode);
        }
        let x = ((opcode & 0x0F00) >> 8) as usize;
        let y = ((opcode & 0x00F0) >> 4) as usize;

        self.pc = self.pc + if self.v[x] != self.v[y] {
            4
        } else {
            2
        };
        assert(self@ =~= sne2_spec(old(self)@, opcode));
    }

    /// `6xkk`: set `Vx = kk`.
    pub fn ld01(&mut self, opcode: u16)
        requires
            old(self).wf(),
            old(self)@.pc + 2 <= u16::MAX,
        ensures
            final(self).wf(),
            final(self)@ == ld01_spec(old(self)@, opcode),
    {
        proof {
            lemma_op_fields(opcode);
        }
        let x = ((opcode & 0x0F00) >> 8) as usize;
        let kk = (opcode & 0x00FF) as u8;

        self.v[x] = kk;
        self.pc = self.pc + 2;
        assert(self@ =~= ld01_spec(old(self)@, opcode));
    }

    /// `7xkk`: set `Vx = Vx + kk`, wrapping modulo 256.
    pub fn add1(&mut self, opcode: u16)
        requires
            old(self).wf(),
            old(self)@.pc + 2 <= u16::MAX,
        ensures
            final(self).wf(),
            final(self)@ == add1_spec(old(self)@, opcode),
    {
        proof {
            lemma_op_fields(opcode);
        }
        let x = ((opcode & 0x0F00) >> 8) as usize;
        let kk = (opcode & 0x00FF) as u8;

        let sum: u16 = (self.v[x] as u16) + (kk as u16);
        self.v[x] = (sum % 256) as u8;
        self.pc = self.pc + 2;
        assert(self@ =~= add1_spec(old(self)@, opcode));
    }

    /// `8xy0`: set `Vx = Vy`.
    pub fn ld02(&mut self, opcode: u16)
        requires
            old(self).wf(),
            old(self)@.pc + 2 <= u16::MAX,
        ensures
            final(self).wf(),
            final(self)@ == ld02_spec(old(self)@, opcode),
    {
        proof {
            lemma_op_fields(opcode);
        }
        let x = ((opcode & 0x0F00) >> 8) as usize;
        let y = ((opcode & 0x00F0) >> 4) as usize;

        self.v[x] = self.v[y];
        self.pc = self.pc + 2;
        assert(self@ =~= ld02_spec(old(self)@, opcode));
    }

    /// `8xy1`: set `Vx = Vx | Vy`.
    pub fn or(&mut self, opcode: u16)
        requires
            old(self).wf(),
            old(self)@.pc + 2 <= u16::MAX,
        ensures
            final(self).wf(),
            final(self)@ == or_spec(old(self)@, opcode),
    {
        proof {
            lemma_op_fields(opcode);
        }
        let x = ((opcode & 0x0F00) >> 8) as usize;
        let y = ((opcode & 0x00F0) >> 4) as usize;

        self.v[x] = self.v[x] | self.v[y];
        self.pc = self.pc + 2;
        assert(self@ =~= or_spec(old(self)@, opcode));
    }

    /// `8xy2`: set `Vx = Vx & Vy`.
    pub fn and(&mut self, opcode: u16)
        requires
            old(self).wf(),
            old(self)@.pc + 2 <= u16::MAX,
        ensures
            final(self).wf(),
            final(self)@ == and_spec(old(self)@, opcode),
    {
        proof {
            lemma_op_fields(opcode);
        }
        let x = ((opcode & 0x0F00) >> 8) as usize;
        let y = ((opcode & 0x00F0) >> 4) as usize;

        self.v[x] = self.v[x] & self.v[y];
        self.pc = self.pc + 2;
        assert(self@ =~= and_spec(old(self)@, opcode));
    }

    /// `8xy3`: set `Vx = Vx ^ Vy`.
    pub fn xor(&mut self, opcode: u16)
        requires
            old(self).wf(),
            old(self)@.pc + 2 <= u16::MAX,
        ensures
            final(self).wf(),
            final(self)@ == xor_spec(old(self)@, opcode),
    {
        proof {
            lemma_op_fields(opcode);
        }
        let x = ((opcode & 0x0F00) >> 8) as usize;
        let y = ((opcode & 0x00F0) >> 4) as usize;

        self.v[x] = self.v[x] ^ self.v[y];
        self.pc = self.pc + 2;
        assert(self@ =~= xor_spec(old(self)@, opcode));
    }

    /// `8xy4`: set `Vx = Vx + Vy` wrapping; `VF` records the carry.
    pub fn add2(&mut self, opcode: u16)
        requires
            old(self).wf(),
            old(self)@.pc + 2 <= u16::MAX,
        ensures
            final(self).wf(),
            final(self)@ == add2_spec(old(self)@, opcode),
    {
        proof {
            lemma_op_fields(opcode);
        }
        let x = ((opcode & 0x0F00) >> 8) as usize;
        let y = ((opcode & 0x00F0) >> 4) as usize;

        let sum: u16 = (self.v[x] as u16) + (self.v[y] as u16);
        self.v[15] = if sum > 0xFF {
            1
        } else {
            0
        };
        self.v[x] = (sum % 256) as u8;
        self.pc = self.pc + 2;
        assert(self@ =~= add2_spec(old(self)@, opcode));
    }

    /// `8xy5`: set `Vx = Vx - Vy` wrapping; `VF` records "no borrow".
    pub fn sub(&mut self, opcode: u16)
        requires
            old(self).wf(),
            old(self)@.pc + 2 <= u16::MAX,
        ensures
            final(self).wf(),
            final(self)@ == sub_spec(old(self)@, opcode),
    {
        proof {
            lemma_op_fields(opcode);
        }
        let x = ((opcode & 0x0F00) >> 8) as usize;
        let y = ((opcode & 0x00F0) >> 4) as usize;

        let vx = self.v[x];
        let vy = self.v[y];
        self.v[15] = if vx >= vy {
            1
        } else {
            0
        };
        self.v[x] = if vx >= vy {
            vx - vy
        } else {
            ((vx as u16) + 256 - (vy as u16)) as u8
        };
        self.pc = self.pc + 2;
        assert(self@ =~= sub_spec(old(self)@, opcode));
    }

    /// `8xy7`: set `Vx = Vy - Vx` wrapping; `VF` records "no borrow".
    pub fn subn(&mut self, opcode: u16)
        requires
            old(self).wf(),
            old(self)@.pc + 2 <= u16::MAX,
        ensures
            final(self).wf(),
            final(self)@ == subn_spec(old(self)@, opcode),
    {
        proof {
            lemma_op_fields(opcode);
        }
        let x = ((opcode & 0x0F00) >> 8) as usize;
        let y = ((opcode & 0x00F0) >> 4) as usize;

        let vx = self.v[x];
        let vy = self.v[y];
        self.v[15] = if vy >= vx {
            1
        } else {
            0
        };
        self.v[x] = if vy >= vx {
            vy - vx
        } else {
            ((vy as u16) + 256 - (vx as u16)) as u8
        };
        self.pc = self.pc + 2;
        assert(self@ =~= subn_spec(old(self)@, opcode));
    }

    /// `8xy6`: `VF` captures the low bit of `Vx`, then `Vx` shifts right once.
    pub fn shr(&mut self, opcode: u16)
        requires
            old(self).wf(),
            old(self)@.pc + 2 <= u16::MAX,
        ensures
            final(self).wf(),
            final(self)@ == shr_spec(old(self)@, opcode),
    {
        proof {
            lemma_op_fields(opcode);
        }
        let x = ((opcode & 0x0F00) >> 8) as usize;

        self.v[15] = self.v[x] & 1u8;
        let cur = self.v[x];
        self.v[x] = cur >> 1u8;
        self.pc = self.pc + 2;
        assert(self@ =~= shr_spec(old(self)@, opcode));
    }

    /// `8xyE`: `VF` captures the high bit of `Vx`, then `Vx` shifts left once.
    pub fn shl(&mut self, opcode: u16)
        requires
            old(self).wf(),
            old(self)@.pc + 2 <= u16::MAX,
        ensures
            final(self).wf(),
            final(self)@ == shl_spec(old(self)@, opcode),
    {
        proof {
            lemma_op_fields(opcode);
        }
        let x = ((opcode & 0x0F00) >> 8) as usize;

        self.v[15] = self.v[x] >> 7u8;
        let cur = self.v[x];
        self.v[x] = cur << 1u8;
        self.pc = self.pc + 2;
        assert(self@ =~= shl_spec(old(self)@, opcode));
    }

    /// `Annn`: set `I = nnn`.
    pub fn ld03(&mut self, opcode: u16)
        requires
            old(self).wf(),
            old(self)@.pc + 2 <= u16::MAX,
        ensures
            final(self).wf(),
            final(self)@ == ld03_spec(old(self)@, opcode),
    {
        self.i = opcode & 0x0FFF;
        self.pc = self.pc + 2;
        assert(self@ =~= ld03_spec(old(self)@, opcode));
    }

    /// `Bnnn`: jump to address `nnn + V0`.
    pub fn jp2(&mut self, opcode: u16)
        requires
            old(self).wf(),
        ensures
            final(self).wf(),
            final(self)@ == jp2_spec(old(self)@, opcode),
    {
        proof {
            lemma_op_fields(opcode);
        }
        self.pc = (opcode & 0x0FFF) + (self.v[0] as u16);
        assert(self@ =~= jp2_spec(old(self)@, opcode));
    }

    /// `Cxkk`: set `Vx` to a random byte ANDed with `kk`. The drawn byte is
    /// outside the contract; what holds of every draw is stated.
    pub fn rnd(&mut self, opcode: u16)
        requires
            old(self).wf(),
            old(self)@.pc + 2 <= u16::MAX,
        ensures
            final(self).wf(),
            exists|rb: u8| final(self)@ == rnd_spec(old(self)@, opcode, rb),
    {
        proof {
            lemma_op_fields(opcode);
        }
        let x = ((opcode & 0x0F00) >> 8) as usize;
        let kk = (opcode & 0x00FF) as u8;
        let rand: u8 = random_byte();

        self.v[x] = rand & kk;
        self.pc = self.pc + 2;
        assert(self@ =~= rnd_spec(old(self)@, opcode, rand));
    }

    /// `Dxyn`: XOR-draw the `n`-row sprite at `I` at `(Vx, Vy)` with
    /// wraparound; `VF` records whether a lit pixel was toggled off.
    pub fn drw(&mut self, opcode: u16)
        requires
            old(self).wf(),
            old(self)@.pc + 2 <= u16::MAX,
            old(self)@.i + op_n(opcode) <= MEMORY_SIZE,
        ensures
            final(self).wf(),
            final(self)@ == drw_spec(old(self)@, opcode),
    {
        proof {
            lemma_op_fields(opcode);
        }
        let x = ((opcode & 0x0F00) >> 8) as usize;
        let y = ((opcode & 0x00F0) >> 4) as usize;
        let n = (opcode & 0x000F) as usize;

        self.v[15] = 0;
        let vx = self.v[x] as usize;
        let vy = self.v[y] as usize;
        let mut collision = false;

        let ghost s0 = old(self)@;
        let ghost mem = s0.memory;
        let ghost i0 = s0.i as int;
        let ghost vxi = vx as int;
        let ghost vyi = vy as int;

        proof {
            lemma_draw_upto_none(s0.display, mem, i0, vxi, vyi, 0);
        }
        let mut dy: usize = 0;
        while dy < n
            invariant
                old(self).wf(),
                self.wf(),
                s0 == old(self)@,
                mem == s0.memory,
                i0 == s0.i as int,
                op_n(opcode) == n,
                n <= 16,
                i0 + n <= MEMORY_SIZE,
                vx < 256,
                vy < 256,
                vxi == vx as int,
                vyi == vy as int,
                dy <= n,
                self@ == (Chip8View {
                    display: self.display@,
                    v: s0.v.update(15, 0u8),
                    ..s0
                }),
                forall|p: int|
                    0 <= p < DISPLAY_W * DISPLAY_H ==> self.display@[p] == (s0.display[p]
                        != draw_flips_upto(mem, i0, vxi, vyi, dy as int, 0, p)),
                collision == draw_coll_upto(s0.display, mem, i0, vxi, vyi, dy as int, 0),
            decreases n - dy,
        {
            let sprite = self.memory[(self.i as usize) + dy];
            let mut dx: usize = 0;
            while dx < 8
                invariant
                    old(self).wf(),
                    self.wf(),
                    s0 == old(self)@,
                    mem == s0.memory,
                    i0 == s0.i as int,
                    op_n(opcode) == n,
                    n <= 16,
                    i0 + n <= MEMORY_SIZE,
                    vx < 256,
                    vy < 256,
                    vxi == vx as int,
                    vyi == vy as int,
                    dy < n,
                    dx <= 8,
                    sprite == mem[i0 + dy],
                    self@ == (Chip8View {
                        display: self.display@,
                        v: s0.v.update(15, 0u8),
                        ..s0
                    }),
                    forall|p: int|
                        0 <= p < DISPLAY_W * DISPLAY_H ==> self.display@[p] == (s0.display[p]
                            != draw_flips_upto(mem, i0, vxi, vyi, dy as int, dx as int, p)),
                    collision == draw_coll_upto(s0.display, mem, i0, vxi, vyi, dy as int, dx as int),
                decreases 8 - dx,
            {
                let ghost dyi = dy as int;
                let ghost dxi = dx as int;
                proof {
                    lemma_draw_upto_step(s0.display, mem, i0, vxi, vyi, dyi, dxi, 0);
                    lemma_pix_bounds(vxi + dxi, vyi + dyi);
                }
                if sprite & (0x80u8 >> (dx as u8)) != 0 {
                    assert(spr_bit(mem[i0 + dyi], dxi));
                    let xpos = (vx + dx) % DISPLAY_W;
                    let ypos = (vy + dy) % DISPLAY_H;
                    let idx = ypos * DISPLAY_W + xpos;
                    assert(idx == pix(vxi + dxi, vyi + dyi));

                    proof {
                        lemma_current_untouched(mem, i0, n as int, vxi, vyi, dyi, dxi);
                    }
                    let displayed = self.display[idx];
                    assert(displayed == s0.display[idx as int]);
                    if displayed {
                        collision = true;
                    }
                    self.display[idx] = !displayed;
                    assert forall|p: int| 0 <= p < DISPLAY_W * DISPLAY_H implies self.display@[p]
                        == (s0.display[p] != draw_flips_upto(
                        mem,
                        i0,
                        vxi,
                        vyi,
                        dyi,
                        dxi + 1,
                        p,
                    )) by {
                        lemma_draw_upto_step(s0.display, mem, i0, vxi, vyi, dyi, dxi, p);
                    }
                } else {
                    assert(!spr_bit(mem[i0 + dyi], dxi));
                    assert forall|p: int| 0 <= p < DISPLAY_W * DISPLAY_H implies self.display@[p]
                        == (s0.display[p] != draw_flips_upto(
                        mem,
                        i0,
                        vxi,
                        vyi,
                        dyi,
                        dxi + 1,
                        p,
                    )) by {
                        lemma_draw_upto_step(s0.display, mem, i0, vxi, vyi, dyi, dxi, p);
                    }
                }
                dx += 1;
            }
            proof {
                lemma_draw_upto_row(s0.display, mem, i0, vxi, vyi, dy as int, 0);
                assert forall|p: int| 0 <= p < DISPLAY_W * DISPLAY_H implies self.display@[p] == (
                s0.display[p] != draw_flips_upto(mem, i0, vxi, vyi, dy as int + 1, 0, p)) by {
                    lemma_draw_upto_row(s0.display, mem, i0, vxi, vyi, dy as int, p);
                }
            }
            dy += 1;
        }
        proof {
            lemma_draw_upto_full(s0.display, mem, i0, n as int, vxi, vyi, 0);
            assert forall|p: int| 0 <= p < DISPLAY_W * DISPLAY_H implies self.display@[p] == (
            s0.display[p] != draw_flips(mem, i0, n as int, vxi, vyi, p)) by {
                lemma_draw_upto_full(s0.display, mem, i0, n as int, vxi, vyi, p);
            }
        }
        self.v[15] = if collision {
            1
        } else {
            0
        };
        self.pc = self.pc + 2;
        assert(self@ =~= drw_spec(old(self)@, opcode));
    }

    /// `Fx0A`: wait for a key press. With no key pressed the program counter
    /// stands still, so the instruction runs again next step; otherwise the
    /// lowest-indexed pressed key goes to `Vx`.
    pub fn ld05(&mut self, opcode: u16)
        requires
            old(self).wf(),
            old(self)@.pc + 2 <= u16::MAX,
        ensures
            final(self).wf(),
            final(self)@ == ld05_spec(old(self)@, opcode),
    {
        proof {
            lemma_op_fields(opcode);
        }
        let x = ((opcode & 0x0F00) >> 8) as usize;

        let mut j: usize = 0;
        while j < NUM_KEYS
            invariant
                old(self).wf(),
                self.wf(),
                self@ == old(self)@,
                op_x(opcode) == x,
                x < NUM_REGISTERS,
                j <= NUM_KEYS,
                old(self)@.pc + 2 <= u16::MAX,
                first_pressed(old(self)@.keyboard) == first_pressed_from(
                    old(self)@.keyboard,
                    j as int,
                ),
            decreases NUM_KEYS - j,
        {
            if self.keyboard[j] {
                assert(first_pressed(old(self)@.keyboard) == j);
                self.v[x] = j as u8;
                self.pc = self.pc + 2;
                assert(self@ =~= ld05_spec(old(self)@, opcode));
                return ;
            }
            j += 1;
        }
        assert(first_pressed(old(self)@.keyboard) == NUM_KEYS);
        assert(self@ =~= ld05_spec(old(self)@, opcode));
    }

    /// `Ex9E`: skip the next instruction if the key numbered `Vx` is pressed.
    pub fn skp(&mut self, opcode: u16)
        requires
            old(self).wf(),
            old(self)@.pc + 4 <= u16::MAX,
        ensures
            final(self).wf(),
            final(self)@ == skp_spec(old(self)@, opcode),
    {
        proof {
            lemma_op_fields(opcode);
        }
        let x = ((opcode & 0x0F00) >> 8) as usize;
        let val = self.v[x] as usize;

        self.pc = self.pc + if val < NUM_KEYS && self.keyboard[val] {
            4
        } else {
            2
        };
        assert(self@ =~= skp_spec(old(self)@, opcode));
    }

    /// `ExA1`: skip the next instruction if the key numbered `Vx` is not
    /// pressed.
    pub fn sknp(&mut self, opcode: u16)
        requires
            old(self).wf(),
            old(self)@.pc + 4 <= u16::MAX,
        ensures
            final(self).wf(),
            final(self)@ == sknp_spec(old(self)@, opcode),
    {
        proof {
            lemma_op_fields(opcode);
        }
        let x = ((opcode & 0x0F00) >> 8) as usize;
        let val = self.v[x] as usize;

        self.pc = self.pc + if val < NUM_KEYS && !self.keyboard[val] {
            4
        } else {
            2
        };
        assert(self@ =~= sknp_spec(old(self)@, opcode));
    }

    /// `Fx07`: set `Vx` to the delay timer.
    pub fn ld04(&mut self, opcode: u16)
        requires
            old(self).wf(),
            old(self)@.pc + 2 <= u16::MAX,
        ensures
            final(self).wf(),
            final(self)@ == ld04_spec(old(self)@, opcode),
    {
        proof {
            lemma_op_fields(opcode);
        }
        let x = ((opcode & 0x0F00) >> 8) as usize;

        self.v[x] = self.delay_timer;
        self.pc = self.pc + 2;
        assert(self@ =~= ld04_spec(old(self)@, opcode));
    }

    /// `Fx15`: set the delay timer to `Vx`.
    pub fn ld06(&mut self, opcode: u16)
        requires
            old(self).wf(),
            old(self)@.pc + 2 <= u16::MAX,
        ensures
            final(self).wf(),
            final(self)@ == ld06_spec(old(self)@, opcode),
    {
        proof {
            lemma_op_fields(opcode);
        }
        let x = ((opcode & 0x0F00) >> 8) as usize;

        self.delay_timer = self.v[x];
        self.pc = self.pc + 2;
        assert(self@ =~= ld06_spec(old(self)@, opcode));
    }

    /// `Fx18`: set the sound timer to `Vx`.
    pub fn ld07(&mut self, opcode: u16)
        requires
            old(self).wf(),
            old(self)@.pc + 2 <= u16::MAX,
        ensures
            final(self).wf(),
            final(self)@ == ld07_spec(old(self)@, opcode),
    {
        proof {
            lemma_op_fields(opcode);
        }
        let x = ((opcode & 0x0F00) >> 8) as usize;

        self.sound_timer = self.v[x];
        self.pc = self.pc + 2;
        assert(self@ =~= ld07_spec(old(self)@, opcode));
    }

    /// `Fx1E`: set `I = I + Vx`.
    pub fn add3(&mut self, opcode: u16)
        requires
            old(self).wf(),
            old(self)@.pc + 2 <= u16::MAX,
            old(self)@.i + old(self)@.v[op_x(opcode) as int] <= u16::MAX,
        ensures
            final(self).wf(),
            final(self)@ == add3_spec(old(self)@, opcode),
    {
        proof {
            lemma_op_fields(opcode);
        }
        let x = ((opcode & 0x0F00) >> 8) as usize;

        self.i = self.i + (self.v[x] as u16);
        self.pc = self.pc + 2;
        assert(self@ =~= add3_spec(old(self)@, opcode));
    }

    /// `Fx29`: set `I` to the glyph sprite address for digit `Vx`.
    pub fn ld08(&mut self, opcode: u16)
        requires
            old(self).wf(),
            old(self)@.pc + 2 <= u16::MAX,
        ensures
            final(self).wf(),
            final(self)@ == ld08_spec(old(self)@, opcode),
    {
        proof {
            lemma_op_fields(opcode);
        }
        let x = ((opcode & 0x0F00) >> 8) as usize;

        self.i = (self.v[x] as u16) * 5;
        self.pc = self.pc + 2;
        assert(self@ =~= ld08_spec(old(self)@, opcode));
    }

    /// `Fx33`: store the decimal digits of `Vx` at `I`, `I+1`, `I+2`.
    pub fn ld09(&mut self, opcode: u16)
        requires
            old(self).wf(),
            old(self)@.pc + 2 <= u16::MAX,
            old(self)@.i + 3 <= MEMORY_SIZE,
        ensures
            final(self).wf(),
            final(self)@ == ld09_spec(old(self)@, opcode),
    {
        proof {
            lemma_op_fields(opcode);
        }
        let x = ((opcode & 0x0F00) >> 8) as usize;
        let i = self.i as usize;
        let val = self.v[x];

        self.memory[i] = val / 100;
        self.memory[i + 1] = (val / 10) % 10;
        self.memory[i + 2] = val % 10;
        self.pc = self.pc + 2;
        assert(self@ =~= ld09_spec(old(self)@, opcode));
    }

    /// `Fx55`: store registers `V0` through `Vx` in memory starting at `I`.
    pub fn ld10(&mut self, opcode: u16)
        requires
            old(self).wf(),
            old(self)@.pc + 2 <= u16::MAX,
            old(self)@.i + op_x(opcode) < MEMORY_SIZE,
        ensures
            final(self).wf(),
            final(self)@ == ld10_spec(old(self)@, opcode),
    {
        proof {
            lemma_op_fields(opcode);
        }
        let x = ((opcode & 0x0F00) >> 8) as usize;

        let mut j: usize = 0;
        while j <= x
            invariant
                old(self).wf(),
                op_x(opcode) == x,
                x < NUM_REGISTERS,
                old(self)@.i + x < MEMORY_SIZE,
                j <= x + 1,
                self.wf(),
                self@ == (Chip8View { memory: self.memory@, ..old(self)@ }),
                forall|t: int| 0 <= t < j ==> self.memory@[old(self)@.i + t] == old(self)@.v[t],
                forall|k: int|
                    0 <= k < MEMORY_SIZE && !(old(self)@.i <= k < old(self)@.i + j)
                        ==> self.memory@[k] == old(self)@.memory[k],
            decreases x + 1 - j,
        {
            let index = (self.i as usize) + j;
            self.memory[index] = self.v[j];
            j += 1;
        }
        self.pc = self.pc + 2;
        assert(self@ =~= ld10_spec(old(self)@, opcode));
    }

    /// `Fx65`: read registers `V0` through `Vx` from memory starting at `I`.
    pub fn ld11(&mut self, opcode: u16)
        requires
            old(self).wf(),
            old(self)@.pc + 2 <= u16::MAX,
            old(self)@.i + op_x(opcode) < MEMORY_SIZE,
        ensures
            final(self).wf(),
            final(self)@ == ld11_spec(old(self)@, opcode),
    {
        proof {
            lemma_op_fields(opcode);
        }
        let x = ((opcode & 0x0F00) >> 8) as usize;

        let mut j: usize = 0;
        while j <= x
            invariant
                old(self).wf(),
                op_x(opcode) == x,
                x < NUM_REGISTERS,
                old(self)@.i + x < MEMORY_SIZE,
                j <= x + 1,
                self.wf(),
                self@ == (Chip8View { v: self.v@, ..old(self)@ }),
                forall|t: int| 0 <= t < j ==> self.v@[t] == old(self)@.memory[old(self)@.i + t],
                forall|t: int| j <= t < NUM_REGISTERS ==> self.v@[t] == old(self)@.v[t],
            decreases x + 1 - j,
        {
            let index = (self.i as usize) + j;
            self.v[j] = self.memory[index];
            j += 1;
        }
        self.pc = self.pc + 2;
        assert(self@ =~= ld11_spec(old(self)@, opcode));
    }

    /// Marks every keypad key as released.
    pub fn reset_keys(&mut self)
        requires
            old(self).wf(),
        ensures
            final(self).wf(),
            final(self)@ == (Chip8View {
                keyboard: Seq::new(NUM_KEYS as nat, |k: int| false),
                ..old(self)@
            }),
    {
        let mut k: usize = 0;
        while k < NUM_KEYS
            invariant
                old(self).wf(),
                k <= NUM_KEYS,
                self.wf(),
                forall|j: int| 0 <= j < k ==> !self.keyboard@[j],
                self@ == (Chip8View { keyboard: self.keyboard@, ..old(self)@ }),
            decreases NUM_KEYS - k,
        {
            self.keyboard[k] = false;
            k += 1;
        }
        assert(self@ =~= (Chip8View {
            keyboard: Seq::new(NUM_KEYS as nat, |k: int| false),
            ..old(self)@
        }));
    }
}

} // verus!
