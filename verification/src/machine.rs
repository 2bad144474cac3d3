//! The mathematical model of the CHIP-8 machine.
//!
//! [`Chip8View`] is the ghost image of the machine state; every instruction is
//! given a meaning as a function from one view to the next, and the executable
//! handlers in [`crate::chip8`] are proved to realize exactly these functions.

use vstd::prelude::*;

verus! {

/// Width of the monochrome display, in pixels.
pub const DISPLAY_W: usize = 64;

/// Height of the monochrome display, in pixels.
pub const DISPLAY_H: usize = 32;

/// Total number of addressable bytes of memory.
pub const MEMORY_SIZE: usize = 4096;

/// Address at which a program image is placed and execution begins.
pub const PROGRAM_START: usize = 0x200;

/// Largest program image that fits between `PROGRAM_START` and the end of memory.
pub const MAX_ROM_LEN: usize = 3584;

/// Number of general-purpose 8-bit registers.
pub const NUM_REGISTERS: usize = 16;

/// Number of return addresses the call stack can hold.
pub const STACK_DEPTH: usize = 16;

/// Number of keys on the hexadecimal keypad.
pub const NUM_KEYS: usize = 16;

/// Number of bytes taken by the 16 built-in glyph sprites (5 bytes each).
pub const GLYPH_BYTES: usize = 80;

/// The ways a load or a step can fail.
///
/// Loading rejects an image that does not fit in memory; a step rejects an
/// instruction word that decodes to nothing, a return on an empty stack, and a
/// call on a full one. A failed step leaves the machine untouched.
#[derive(Clone, Copy, Debug, PartialEq, Eq, Structural)]
pub enum Chip8Error {
    /// The program image is larger than `MAX_ROM_LEN` bytes.
    RomTooBig,
    /// The instruction word matches no known opcode pattern.
    DecodeFault,
    /// A call was executed with all `STACK_DEPTH` stack slots in use.
    StackOverflow,
    /// A return was executed with an empty stack.
    StackUnderflow,
}

/// The machine state as pure mathematics: one field per machine component.
#[verifier::ext_equal]
pub ghost struct Chip8View {
    pub memory: Seq<u8>,
    pub v: Seq<u8>,
    pub i: u16,
    pub delay_timer: u8,
    pub sound_timer: u8,
    pub pc: u16,
    pub sp: u8,
    pub stack: Seq<u16>,
    pub keyboard: Seq<bool>,
    pub display: Seq<bool>,
}

impl Chip8View {
    /// The fixed sizes of every component of the machine state.
    pub open spec fn wf(self) -> bool {
        &&& self.memory.len() == MEMORY_SIZE
        &&& self.v.len() == NUM_REGISTERS
        &&& self.sp <= STACK_DEPTH
        &&& self.stack.len() == STACK_DEPTH
        &&& self.keyboard.len() == NUM_KEYS
        &&& self.display.len() == DISPLAY_W * DISPLAY_H
    }
}

/// The `x` register selector of an instruction word `oxyn`.
pub open spec fn op_x(op: u16) -> u16 {
    (op & 0x0F00) >> 8
}

/// The `y` register selector of an instruction word `oxyn`.
pub open spec fn op_y(op: u16) -> u16 {
    (op & 0x00F0) >> 4
}

/// The low nibble `n` of an instruction word `oxyn`.
pub open spec fn op_n(op: u16) -> u16 {
    op & 0x000F
}

/// The immediate byte `kk` of an instruction word `oxkk`.
pub open spec fn op_kk(op: u16) -> u8 {
    (op & 0x00FF) as u8
}

/// The 12-bit address `nnn` of an instruction word `onnn`.
pub open spec fn op_nnn(op: u16) -> u16 {
    op & 0x0FFF
}

/// Ranges of the instruction word fields, by bit blasting.
pub proof fn lemma_op_fields(op: u16)
    by (bit_vector)
    ensures
        op_x(op) < 16,
        op_y(op) < 16,
        op_n(op) < 16,
        op_nnn(op) < 4096,
{
}

/// The high nibble of an instruction word is one of its 16 values, by bit
/// blasting.
pub proof fn lemma_op_family(op: u16)
    by (bit_vector)
    ensures
        (op & 0xF000) == 0x0000 || (op & 0xF000) == 0x1000 || (op & 0xF000) == 0x2000 || (op
            & 0xF000) == 0x3000 || (op & 0xF000) == 0x4000 || (op & 0xF000) == 0x5000 || (op
            & 0xF000) == 0x6000 || (op & 0xF000) == 0x7000 || (op & 0xF000) == 0x8000 || (op
            & 0xF000) == 0x9000 || (op & 0xF000) == 0xA000 || (op & 0xF000) == 0xB000 || (op
            & 0xF000) == 0xC000 || (op & 0xF000) == 0xD000 || (op & 0xF000) == 0xE000 || (op
            & 0xF000) == 0xF000,
{
}

/// The 16 glyph sprites for digits 0 through F, 5 bytes per digit, as placed
/// at the bottom of memory.
pub open spec fn hex_sprites_spec() -> Seq<u8> {
    seq![
        0xF0u8, 0x90, 0x90, 0x90, 0xF0, // 0
        0x20, 0x60, 0x20, 0x20, 0x70, // 1
        0xF0, 0x10, 0xF0, 0x80, 0xF0, // 2
        0xF0, 0x10, 0xF0, 0x10, 0xF0, // 3
        0x90, 0x90, 0xF0, 0x10, 0x10, // 4
        0xF0, 0x80, 0xF0, 0x10, 0xF0, // 5
        0xF0, 0x80, 0xF0, 0x90, 0xF0, // 6
        0xF0, 0x10, 0x20, 0x40, 0x40, // 7
        0xF0, 0x90, 0xF0, 0x90, 0xF0, // 8
        0xF0, 0x90, 0xF0, 0x10, 0xF0, // 9
        0xF0, 0x90, 0xF0, 0x90, 0x90, // A
        0xE0, 0x90, 0xE0, 0x90, 0xE0, // B
        0xF0, 0x80, 0x80, 0x80, 0xF0, // C
        0xE0, 0x90, 0x90, 0x90, 0xE0, // D
        0xF0, 0x80, 0xF0, 0x80, 0xF0, // E
        0xF0, 0x80, 0xF0, 0x80, 0x80, // F
    ]
}

/// The machine as it stands after initialization: glyphs at the bottom of
/// memory, everything else zeroed, the program counter at `PROGRAM_START`.
pub open spec fn init_spec() -> Chip8View {
    Chip8View {
        memory: Seq::new(
            MEMORY_SIZE as nat,
            |k: int| if k < GLYPH_BYTES { hex_sprites_spec()[k] } else { 0u8 },
        ),
        v: Seq::new(NUM_REGISTERS as nat, |j: int| 0u8),
        i: 0,
        delay_timer: 0,
        sound_timer: 0,
        pc: 0x200,
        sp: 0,
        stack: Seq::new(STACK_DEPTH as nat, |j: int| 0u16),
        keyboard: Seq::new(NUM_KEYS as nat, |j: int| false),
        display: Seq::new((DISPLAY_W * DISPLAY_H) as nat, |p: int| false),
    }
}

/// 8-bit addition with wraparound modulo 256.
pub open spec fn wrap_add(a: u8, b: u8) -> u8 {
    ((a + b) % 256) as u8
}

/// 8-bit subtraction with wraparound modulo 256.
pub open spec fn wrap_sub(a: u8, b: u8) -> u8 {
    if a >= b {
        (a - b) as u8
    } else {
        (a - b + 256) as u8
    }
}

/// Clear-screen `00E0`: every pixel off, program counter advanced.
pub open spec fn cls_spec(s: Chip8View) -> Chip8View {
    Chip8View {
        display: Seq::new(s.display.len(), |p: int| false),
        pc: (s.pc + 2) as u16,
        ..s
    }
}

/// Return `00EE`: pop the stack and resume two bytes past the saved address.
pub open spec fn ret_spec(s: Chip8View) -> Chip8View {
    Chip8View { sp: (s.sp - 1) as u8, pc: (s.stack[s.sp - 1] + 2) as u16, ..s }
}

/// Jump `1nnn`: the program counter becomes `nnn`.
pub open spec fn jp1_spec(s: Chip8View, op: u16) -> Chip8View {
    Chip8View { pc: op_nnn(op), ..s }
}

/// Call `2nnn`: push the current program counter, then jump to `nnn`.
pub open spec fn call_spec(s: Chip8View, op: u16) -> Chip8View {
    Chip8View {
        stack: s.stack.update(s.sp as int, s.pc),
        sp: (s.sp + 1) as u8,
        pc: op_nnn(op),
        ..s
    }
}

/// Advance the program counter by 4 when `cond` holds, else by 2.
pub open spec fn skip_if(s: Chip8View, cond: bool) -> Chip8View {
    Chip8View { pc: if cond { (s.pc + 4) as u16 } else { (s.pc + 2) as u16 }, ..s }
}

/// Skip `3xkk`: skip the next instruction when `Vx == kk`.
pub open spec fn se1_spec(s: Chip8View, op: u16) -> Chip8View {
    skip_if(s, s.v[op_x(op) as int] == op_kk(op))
}

/// Skip `4xkk`: skip the next instruction when `Vx != kk`.
pub open spec fn sne1_spec(s: Chip8View, op: u16) -> Chip8View {
    skip_if(s, s.v[op_x(op) as int] != op_kk(op))
}

/// Skip `5xy0`: skip the next instruction when `Vx == Vy`.
pub open spec fn se2_spec(s: Chip8View, op: u16) -> Chip8View {
    skip_if(s, s.v[op_x(op) as int] == s.v[op_y(op) as int])
}

/// Skip `9xy0`: skip the next instruction when `Vx != Vy`.
pub open spec fn sne2_spec(s: Chip8View, op: u16) -> Chip8View {
    skip_if(s, s.v[op_x(op) as int] != s.v[op_y(op) as int])
}

/// Load `6xkk`: `Vx = kk`.
pub open spec fn ld01_spec(s: Chip8View, op: u16) -> Chip8View {
    Chip8View { v: s.v.update(op_x(op) as int, op_kk(op)), pc: (s.pc + 2) as u16, ..s }
}

/// Add `7xkk`: `Vx = Vx + kk`, wrapping modulo 256, flag untouched.
pub open spec fn add1_spec(s: Chip8View, op: u16) -> Chip8View {
    Chip8View {
        v: s.v.update(op_x(op) as int, wrap_add(s.v[op_x(op) as int], op_kk(op))),
        pc: (s.pc + 2) as u16,
        ..s
    }
}

/// Load `8xy0`: `Vx = Vy`.
pub open spec fn ld02_spec(s: Chip8View, op: u16) -> Chip8View {
    Chip8View {
        v: s.v.update(op_x(op) as int, s.v[op_y(op) as int]),
        pc: (s.pc + 2) as u16,
        ..s
    }
}

/// Bitwise `8xy1`: `Vx = Vx | Vy`.
pub open spec fn or_spec(s: Chip8View, op: u16) -> Chip8View {
    Chip8View {
        v: s.v.update(op_x(op) as int, s.v[op_x(op) as int] | s.v[op_y(op) as int]),
        pc: (s.pc + 2) as u16,
        ..s
    }
}

/// Bitwise `8xy2`: `Vx = Vx & Vy`.
pub open spec fn and_spec(s: Chip8View, op: u16) -> Chip8View {
    Chip8View {
        v: s.v.update(op_x(op) as int, s.v[op_x(op) as int] & s.v[op_y(op) as int]),
        pc: (s.pc + 2) as u16,
        ..s
    }
}

/// Bitwise `8xy3`: `Vx = Vx ^ Vy`.
pub open spec fn xor_spec(s: Chip8View, op: u16) -> Chip8View {
    Chip8View {
        v: s.v.update(op_x(op) as int, s.v[op_x(op) as int] ^ s.v[op_y(op) as int]),
        pc: (s.pc + 2) as u16,
        ..s
    }
}

/// Add `8xy4`: `Vx = Vx + Vy` wrapping; the flag records the carry.
pub open spec fn add2_spec(s: Chip8View, op: u16) -> Chip8View {
    let vx = s.v[op_x(op) as int];
    let vy = s.v[op_y(op) as int];
    let flag: u8 = if vx + vy > 255 { 1 } else { 0 };
    Chip8View {
        v: s.v.update(15, flag).update(op_x(op) as int, wrap_add(vx, vy)),
        pc: (s.pc + 2) as u16,
        ..s
    }
}

/// Subtract `8xy5`: `Vx = Vx - Vy` wrapping; the flag records "no borrow"
/// (`Vx >= Vy`).
pub open spec fn sub_spec(s: Chip8View, op: u16) -> Chip8View {
    let vx = s.v[op_x(op) as int];
    let vy = s.v[op_y(op) as int];
    let flag: u8 = if vx >= vy { 1 } else { 0 };
    Chip8View {
        v: s.v.update(15, flag).update(op_x(op) as int, wrap_sub(vx, vy)),
        pc: (s.pc + 2) as u16,
        ..s
    }
}

/// Subtract `8xy7`: `Vx = Vy - Vx` wrapping; the flag records "no borrow"
/// (`Vy >= Vx`).
pub open spec fn subn_spec(s: Chip8View, op: u16) -> Chip8View {
    let vx = s.v[op_x(op) as int];
    let vy = s.v[op_y(op) as int];
    let flag: u8 = if vy >= vx { 1 } else { 0 };
    Chip8View {
        v: s.v.update(15, flag).update(op_x(op) as int, wrap_sub(vy, vx)),
        pc: (s.pc + 2) as u16,
        ..s
    }
}

/// Shift `8xy6`: the flag captures the low bit of `Vx`, then `Vx` shifts
/// right once. The flag is written first, so `x = 0xF` shifts the flag itself.
pub open spec fn shr_spec(s: Chip8View, op: u16) -> Chip8View {
    let v1 = s.v.update(15, s.v[op_x(op) as int] & 1);
    Chip8View {
        v: v1.update(op_x(op) as int, v1[op_x(op) as int] >> 1u8),
        pc: (s.pc + 2) as u16,
        ..s
    }
}

/// Shift `8xyE`: the flag captures the high bit of `Vx`, then `Vx` shifts
/// left once. The flag is written first, so `x = 0xF` shifts the flag itself.
pub open spec fn shl_spec(s: Chip8View, op: u16) -> Chip8View {
    let v1 = s.v.update(15, s.v[op_x(op) as int] >> 7u8);
    Chip8View {
        v: v1.update(op_x(op) as int, v1[op_x(op) as int] << 1u8),
        pc: (s.pc + 2) as u16,
        ..s
    }
}

/// Load `Annn`: `I = nnn`.
pub open spec fn ld03_spec(s: Chip8View, op: u16) -> Chip8View {
    Chip8View { i: op_nnn(op), pc: (s.pc + 2) as u16, ..s }
}

/// Indexed jump `Bnnn`: the program counter becomes `nnn + V0`.
pub open spec fn jp2_spec(s: Chip8View, op: u16) -> Chip8View {
    Chip8View { pc: (op_nnn(op) + s.v[0]) as u16, ..s }
}

/// Random `Cxkk`: `Vx = rb & kk` for the drawn byte `rb`.
pub open spec fn rnd_spec(s: Chip8View, op: u16, rb: u8) -> Chip8View {
    Chip8View { v: s.v.update(op_x(op) as int, rb & op_kk(op)), pc: (s.pc + 2) as u16, ..s }
}

/// The framebuffer index of the pixel at wrapped coordinates `(x, y)`.
pub open spec fn pix(x: int, y: int) -> int {
    (y % (DISPLAY_H as int)) * (DISPLAY_W as int) + x % (DISPLAY_W as int)
}

/// Whether bit `dx` (counted from the most significant bit) of a sprite row
/// is set.
pub open spec fn spr_bit(row: u8, dx: int) -> bool {
    row & (0x80u8 >> (dx as u8)) != 0
}

/// Whether the sprite of `n` rows at memory address `i`, drawn at `(vx, vy)`,
/// toggles the pixel at framebuffer index `p`.
pub open spec fn draw_flips(mem: Seq<u8>, i: int, n: int, vx: int, vy: int, p: int) -> bool {
    exists|dy: int, dx: int|
        0 <= dy < n && 0 <= dx < 8 && #[trigger] spr_bit(mem[i + dy], dx) && #[trigger] pix(
            vx + dx,
            vy + dy,
        ) == p
}

/// The framebuffer after XOR-drawing the sprite of `n` rows at memory address
/// `i` onto `d` at `(vx, vy)`.
pub open spec fn draw_display(
    d: Seq<bool>,
    mem: Seq<u8>,
    i: int,
    n: int,
    vx: int,
    vy: int,
) -> Seq<bool> {
    Seq::new(d.len(), |p: int| d[p] != draw_flips(mem, i, n, vx, vy, p))
}

/// Whether the draw toggles off some pixel that was already lit.
pub open spec fn draw_collision(
    d: Seq<bool>,
    mem: Seq<u8>,
    i: int,
    n: int,
    vx: int,
    vy: int,
) -> bool {
    exists|dy: int, dx: int|
        0 <= dy < n && 0 <= dx < 8 && #[trigger] spr_bit(mem[i + dy], dx) && d[#[trigger] pix(
            vx + dx,
            vy + dy,
        )]
}

/// Whether some sprite cell strictly before row `dy0`, column `dx0` (in the
/// row-major order a draw walks them) toggles the pixel at index `p`.
pub open spec fn draw_flips_upto(
    mem: Seq<u8>,
    i: int,
    vx: int,
    vy: int,
    dy0: int,
    dx0: int,
    p: int,
) -> bool {
    exists|dy: int, dx: int|
        0 <= dy && 0 <= dx < 8 && (dy < dy0 || (dy == dy0 && dx < dx0)) && #[trigger] spr_bit(
            mem[i + dy],
            dx,
        ) && #[trigger] pix(vx + dx, vy + dy) == p
}

/// Whether some sprite cell strictly before row `dy0`, column `dx0` lands on
/// a pixel of `d` that is lit.
pub open spec fn draw_coll_upto(
    d: Seq<bool>,
    mem: Seq<u8>,
    i: int,
    vx: int,
    vy: int,
    dy0: int,
    dx0: int,
) -> bool {
    exists|dy: int, dx: int|
        0 <= dy && 0 <= dx < 8 && (dy < dy0 || (dy == dy0 && dx < dx0)) && #[trigger] spr_bit(
            mem[i + dy],
            dx,
        ) && d[#[trigger] pix(vx + dx, vy + dy)]
}

/// Two offsets into the same window `[0, m)` that land on the same residue
/// are the same offset.
pub(crate) proof fn lemma_mod_window(base: int, d1: int, d2: int, m: int)
    requires
        m > 0,
        base >= 0,
        0 <= d1 < m,
        0 <= d2 < m,
        (base + d1) % m == (base + d2) % m,
    ensures
        d1 == d2,
{
    let a = base + d1;
    let b = base + d2;
    vstd::arithmetic::div_mod::lemma_fundamental_div_mod(a, m);
    vstd::arithmetic::div_mod::lemma_fundamental_div_mod(b, m);
    let qa = a / m;
    let qb = b / m;
    assert(d1 - d2 == m * (qa - qb)) by (nonlinear_arith)
        requires
            a == m * qa + (a % m),
            b == m * qb + (b % m),
            a % m == b % m,
            a - b == d1 - d2,
    ;
    if qa != qb {
        assert(m * (qa - qb) >= m || m * (qa - qb) <= -m) by (nonlinear_arith)
            requires
                m > 0,
                qa != qb,
        ;
    }
}

/// A drawn pixel index is inside the framebuffer.
pub(crate) proof fn lemma_pix_bounds(x: int, y: int)
    requires
        x >= 0,
        y >= 0,
    ensures
        0 <= pix(x, y) < DISPLAY_W * DISPLAY_H,
{
    vstd::arithmetic::div_mod::lemma_mod_bound(x, DISPLAY_W as int);
    vstd::arithmetic::div_mod::lemma_mod_bound(y, DISPLAY_H as int);
}

/// Distinct cells of one sprite land on distinct pixels: the sprite is 8
/// columns in a 64-wide display and at most 32 rows in a 32-high one.
pub(crate) proof fn lemma_pix_inj(vx: int, vy: int, dx1: int, dy1: int, dx2: int, dy2: int)
    requires
        vx >= 0,
        vy >= 0,
        0 <= dx1 < 8,
        0 <= dx2 < 8,
        0 <= dy1 < DISPLAY_H,
        0 <= dy2 < DISPLAY_H,
        pix(vx + dx1, vy + dy1) == pix(vx + dx2, vy + dy2),
    ensures
        dx1 == dx2,
        dy1 == dy2,
{
    let w = DISPLAY_W as int;
    let h = DISPLAY_H as int;
    vstd::arithmetic::div_mod::lemma_mod_bound(vx + dx1, w);
    vstd::arithmetic::div_mod::lemma_mod_bound(vx + dx2, w);
    vstd::arithmetic::div_mod::lemma_mod_bound(vy + dy1, h);
    vstd::arithmetic::div_mod::lemma_mod_bound(vy + dy2, h);
    assert((vy + dy1) % h == (vy + dy2) % h);
    assert((vx + dx1) % w == (vx + dx2) % w);
    lemma_mod_window(vy, dy1, dy2, h);
    lemma_mod_window(vx, dx1, dx2, w);
}

/// Before any cell has been walked, nothing has been toggled and nothing has
/// collided.
pub(crate) proof fn lemma_draw_upto_none(d: Seq<bool>, mem: Seq<u8>, i: int, vx: int, vy: int, p: int)
    ensures
        !draw_flips_upto(mem, i, vx, vy, 0, 0, p),
        !draw_coll_upto(d, mem, i, vx, vy, 0, 0),
{
}

/// Walking one more cell adds exactly that cell to the toggled and collided
/// sets.
pub(crate) proof fn lemma_draw_upto_step(
    d: Seq<bool>,
    mem: Seq<u8>,
    i: int,
    vx: int,
    vy: int,
    dy0: int,
    dx0: int,
    p: int,
)
    requires
        0 <= dy0,
        0 <= dx0 < 8,
    ensures
        draw_flips_upto(mem, i, vx, vy, dy0, dx0 + 1, p) == (draw_flips_upto(
            mem,
            i,
            vx,
            vy,
            dy0,
            dx0,
            p,
        ) || (spr_bit(mem[i + dy0], dx0) && pix(vx + dx0, vy + dy0) == p)),
        draw_coll_upto(d, mem, i, vx, vy, dy0, dx0 + 1) == (draw_coll_upto(
            d,
            mem,
            i,
            vx,
            vy,
            dy0,
            dx0,
        ) || (spr_bit(mem[i + dy0], dx0) && d[pix(vx + dx0, vy + dy0)])),
{
    if draw_flips_upto(mem, i, vx, vy, dy0, dx0 + 1, p) {
        let (dy, dx) = choose|dy: int, dx: int|
            0 <= dy && 0 <= dx < 8 && (dy < dy0 || (dy == dy0 && dx < dx0 + 1))
                && #[trigger] spr_bit(mem[i + dy], dx) && #[trigger] pix(vx + dx, vy + dy) == p;
        if dy < dy0 || (dy == dy0 && dx < dx0) {
            assert(draw_flips_upto(mem, i, vx, vy, dy0, dx0, p));
        }
    }
    if draw_coll_upto(d, mem, i, vx, vy, dy0, dx0 + 1) {
        let (dy, dx) = choose|dy: int, dx: int|
            0 <= dy && 0 <= dx < 8 && (dy < dy0 || (dy == dy0 && dx < dx0 + 1))
                && #[trigger] spr_bit(mem[i + dy], dx) && d[#[trigger] pix(vx + dx, vy + dy)];
        if dy < dy0 || (dy == dy0 && dx < dx0) {
            assert(draw_coll_upto(d, mem, i, vx, vy, dy0, dx0));
        }
    }
}

/// Finishing a row of 8 cells is the same as standing at the start of the
/// next row.
pub(crate) proof fn lemma_draw_upto_row(
    d: Seq<bool>,
    mem: Seq<u8>,
    i: int,
    vx: int,
    vy: int,
    dy0: int,
    p: int,
)
    ensures
        draw_flips_upto(mem, i, vx, vy, dy0, 8, p) == draw_flips_upto(
            mem,
            i,
            vx,
            vy,
            dy0 + 1,
            0,
            p,
        ),
        draw_coll_upto(d, mem, i, vx, vy, dy0, 8) == draw_coll_upto(d, mem, i, vx, vy, dy0 + 1, 0),
{
    if draw_flips_upto(mem, i, vx, vy, dy0, 8, p) {
        let (dy, dx) = choose|dy: int, dx: int|
            0 <= dy && 0 <= dx < 8 && (dy < dy0 || (dy == dy0 && dx < 8)) && #[trigger] spr_bit(
                mem[i + dy],
                dx,
            ) && #[trigger] pix(vx + dx, vy + dy) == p;
        assert(draw_flips_upto(mem, i, vx, vy, dy0 + 1, 0, p));
    }
    if draw_flips_upto(mem, i, vx, vy, dy0 + 1, 0, p) {
        let (dy, dx) = choose|dy: int, dx: int|
            0 <= dy && 0 <= dx < 8 && (dy < dy0 + 1 || (dy == dy0 + 1 && dx < 0))
                && #[trigger] spr_bit(mem[i + dy], dx) && #[trigger] pix(vx + dx, vy + dy) == p;
        assert(draw_flips_upto(mem, i, vx, vy, dy0, 8, p));
    }
    if draw_coll_upto(d, mem, i, vx, vy, dy0, 8) {
        let (dy, dx) = choose|dy: int, dx: int|
            0 <= dy && 0 <= dx < 8 && (dy < dy0 || (dy == dy0 && dx < 8)) && #[trigger] spr_bit(
                mem[i + dy],
                dx,
            ) && d[#[trigger] pix(vx + dx, vy + dy)];
        assert(draw_coll_upto(d, mem, i, vx, vy, dy0 + 1, 0));
    }
    if draw_coll_upto(d, mem, i, vx, vy, dy0 + 1, 0) {
        let (dy, dx) = choose|dy: int, dx: int|
            0 <= dy && 0 <= dx < 8 && (dy < dy0 + 1 || (dy == dy0 + 1 && dx < 0))
                && #[trigger] spr_bit(mem[i + dy], dx) && d[#[trigger] pix(vx + dx, vy + dy)];
        assert(draw_coll_upto(d, mem, i, vx, vy, dy0, 8));
    }
}

/// Having walked all `n` rows is the draw of the whole sprite.
pub(crate) proof fn lemma_draw_upto_full(
    d: Seq<bool>,
    mem: Seq<u8>,
    i: int,
    n: int,
    vx: int,
    vy: int,
    p: int,
)
    requires
        0 <= n,
    ensures
        draw_flips_upto(mem, i, vx, vy, n, 0, p) == draw_flips(mem, i, n, vx, vy, p),
        draw_coll_upto(d, mem, i, vx, vy, n, 0) == draw_collision(d, mem, i, n, vx, vy),
{
    if draw_flips_upto(mem, i, vx, vy, n, 0, p) {
        let (dy, dx) = choose|dy: int, dx: int|
            0 <= dy && 0 <= dx < 8 && (dy < n || (dy == n && dx < 0)) && #[trigger] spr_bit(
                mem[i + dy],
                dx,
            ) && #[trigger] pix(vx + dx, vy + dy) == p;
        assert(draw_flips(mem, i, n, vx, vy, p));
    }
    if draw_flips(mem, i, n, vx, vy, p) {
        let (dy, dx) = choose|dy: int, dx: int|
            0 <= dy < n && 0 <= dx < 8 && #[trigger] spr_bit(mem[i + dy], dx) && #[trigger] pix(
                vx + dx,
                vy + dy,
            ) == p;
        assert(draw_flips_upto(mem, i, vx, vy, n, 0, p));
    }
    if draw_coll_upto(d, mem, i, vx, vy, n, 0) {
        let (dy, dx) = choose|dy: int, dx: int|
            0 <= dy && 0 <= dx < 8 && (dy < n || (dy == n && dx < 0)) && #[trigger] spr_bit(
                mem[i + dy],
                dx,
            ) && d[#[trigger] pix(vx + dx, vy + dy)];
        assert(draw_collision(d, mem, i, n, vx, vy));
    }
    if draw_collision(d, mem, i, n, vx, vy) {
        let (dy, dx) = choose|dy: int, dx: int|
            0 <= dy < n && 0 <= dx < 8 && #[trigger] spr_bit(mem[i + dy], dx) && d[#[trigger] pix(
                vx + dx,
                vy + dy,
            )];
        assert(draw_coll_upto(d, mem, i, vx, vy, n, 0));
    }
}

/// The cell a draw stands at has not been toggled by any earlier cell: every
/// earlier cell lands on a different pixel.
pub(crate) proof fn lemma_current_untouched(
    mem: Seq<u8>,
    i: int,
    n: int,
    vx: int,
    vy: int,
    dy0: int,
    dx0: int,
)
    requires
        vx >= 0,
        vy >= 0,
        0 <= dy0 < n,
        n <= 16,
        0 <= dx0 < 8,
    ensures
        !draw_flips_upto(mem, i, vx, vy, dy0, dx0, pix(vx + dx0, vy + dy0)),
{
    let p = pix(vx + dx0, vy + dy0);
    if draw_flips_upto(mem, i, vx, vy, dy0, dx0, p) {
        let (dy, dx) = choose|dy: int, dx: int|
            0 <= dy && 0 <= dx < 8 && (dy < dy0 || (dy == dy0 && dx < dx0)) && #[trigger] spr_bit(
                mem[i + dy],
                dx,
            ) && #[trigger] pix(vx + dx, vy + dy) == p;
        lemma_pix_inj(vx, vy, dx, dy, dx0, dy0);
        assert(false);
    }
}

/// Drawing the same sprite at the same place twice restores every pixel:
/// each draw toggles exactly the same set of pixels, and a double XOR is the
/// identity.
pub proof fn lemma_draw_twice_restores(
    d: Seq<bool>,
    mem: Seq<u8>,
    i: int,
    n: int,
    vx: int,
    vy: int,
)
    ensures
        draw_display(draw_display(d, mem, i, n, vx, vy), mem, i, n, vx, vy) == d,
{
    let d1 = draw_display(d, mem, i, n, vx, vy);
    let d2 = draw_display(d1, mem, i, n, vx, vy);
    assert forall|p: int| 0 <= p < d.len() implies d2[p] == d[p] by {
        assert(d1[p] == (d[p] != draw_flips(mem, i, n, vx, vy, p)));
        assert(d2[p] == (d1[p] != draw_flips(mem, i, n, vx, vy, p)));
    }
    assert(d2 =~= d);
}

/// Draw `Dxyn`: XOR the sprite of `n` rows at `I` onto the display at
/// `(Vx, Vy)` with wraparound; the flag records whether a lit pixel went out.
/// The flag is cleared before the coordinates are read, so `x` or `y = 0xF`
/// draws at coordinate 0.
pub open spec fn drw_spec(s: Chip8View, op: u16) -> Chip8View {
    let v0 = s.v.update(15, 0u8);
    let vx = v0[op_x(op) as int] as int;
    let vy = v0[op_y(op) as int] as int;
    let n = op_n(op) as int;
    Chip8View {
        display: draw_display(s.display, s.memory, s.i as int, n, vx, vy),
        v: s.v.update(
            15,
            if draw_collision(s.display, s.memory, s.i as int, n, vx, vy) {
                1u8
            } else {
                0u8
            },
        ),
        pc: (s.pc + 2) as u16,
        ..s
    }
}

/// Drawing the same sprite at the same place twice, as two whole draw
/// instructions, restores the framebuffer exactly: the first draw changes no
/// input of the second one (the flag register it writes does not feed the
/// coordinates, which read the flag as cleared), so the second toggles the
/// same pixels back.
pub proof fn lemma_drw_twice_restores_display(s: Chip8View, op: u16)
    requires
        s.wf(),
    ensures
        drw_spec(drw_spec(s, op), op).display == s.display,
{
    let s1 = drw_spec(s, op);
    assert(s1.v.update(15, 0u8) =~= s.v.update(15, 0u8));
    let v0 = s.v.update(15, 0u8);
    let vx = v0[op_x(op) as int] as int;
    let vy = v0[op_y(op) as int] as int;
    let n = op_n(op) as int;
    lemma_draw_twice_restores(s.display, s.memory, s.i as int, n, vx, vy);
}

/// Skip `Ex9E`: skip the next instruction when the key numbered `Vx` is
/// pressed. A value of `Vx` beyond the keypad is treated as not pressed.
pub open spec fn skp_spec(s: Chip8View, op: u16) -> Chip8View {
    let val = s.v[op_x(op) as int] as int;
    skip_if(s, val < NUM_KEYS && s.keyboard[val])
}

/// Skip `ExA1`: skip the next instruction when the key numbered `Vx` is not
/// pressed. A value of `Vx` beyond the keypad does not skip.
pub open spec fn sknp_spec(s: Chip8View, op: u16) -> Chip8View {
    let val = s.v[op_x(op) as int] as int;
    skip_if(s, val < NUM_KEYS && !s.keyboard[val])
}

/// Load `Fx07`: `Vx = delay timer`.
pub open spec fn ld04_spec(s: Chip8View, op: u16) -> Chip8View {
    Chip8View { v: s.v.update(op_x(op) as int, s.delay_timer), pc: (s.pc + 2) as u16, ..s }
}

/// The lowest pressed key at index `k` or above, or `NUM_KEYS` if none is.
pub open spec fn first_pressed_from(kb: Seq<bool>, k: int) -> int
    decreases NUM_KEYS - k,
{
    if k < 0 || k >= NUM_KEYS {
        NUM_KEYS as int
    } else if kb[k] {
        k
    } else {
        first_pressed_from(kb, k + 1)
    }
}

/// The lowest-indexed pressed key, or `NUM_KEYS` if no key is pressed.
pub open spec fn first_pressed(kb: Seq<bool>) -> int {
    first_pressed_from(kb, 0)
}

/// What `first_pressed_from` finds at or above `j`: `NUM_KEYS` exactly when
/// nothing at or above `j` is pressed, else a pressed key below which nothing
/// at or above `j` is pressed.
proof fn lemma_first_pressed_from_props(kb: Seq<bool>, j: int)
    requires
        0 <= j <= NUM_KEYS,
    ensures
        j <= first_pressed_from(kb, j) <= NUM_KEYS,
        first_pressed_from(kb, j) == NUM_KEYS <==> (forall|k: int|
            j <= k < NUM_KEYS ==> !kb[k]),
        first_pressed_from(kb, j) < NUM_KEYS ==> kb[first_pressed_from(kb, j)] && (forall|k: int|
            j <= k < first_pressed_from(kb, j) ==> !kb[k]),
    decreases NUM_KEYS - j,
{
    if j < NUM_KEYS && !kb[j] {
        lemma_first_pressed_from_props(kb, j + 1);
    }
}

/// The key-wait scan picks out exactly the lowest-indexed pressed key:
/// `first_pressed` is `NUM_KEYS` exactly when no key is pressed, and
/// otherwise a pressed key with every lower-indexed key unpressed.
pub proof fn lemma_first_pressed_lowest(kb: Seq<bool>)
    ensures
        0 <= first_pressed(kb) <= NUM_KEYS,
        first_pressed(kb) == NUM_KEYS <==> (forall|k: int| 0 <= k < NUM_KEYS ==> !kb[k]),
        first_pressed(kb) < NUM_KEYS ==> kb[first_pressed(kb)] && (forall|k: int|
            0 <= k < first_pressed(kb) ==> !kb[k]),
{
    lemma_first_pressed_from_props(kb, 0);
}

/// Key wait `Fx0A`: while no key is pressed the program counter stands still,
/// so the instruction runs again on the next step; once a key is pressed, the
/// lowest-indexed pressed key goes to `Vx` and execution moves on.
pub open spec fn ld05_spec(s: Chip8View, op: u16) -> Chip8View {
    let key = first_pressed(s.keyboard);
    if key < NUM_KEYS {
        Chip8View { v: s.v.update(op_x(op) as int, key as u8), pc: (s.pc + 2) as u16, ..s }
    } else {
        s
    }
}

/// Load `Fx15`: `delay timer = Vx`.
pub open spec fn ld06_spec(s: Chip8View, op: u16) -> Chip8View {
    Chip8View { delay_timer: s.v[op_x(op) as int], pc: (s.pc + 2) as u16, ..s }
}

/// Load `Fx18`: `sound timer = Vx`.
pub open spec fn ld07_spec(s: Chip8View, op: u16) -> Chip8View {
    Chip8View { sound_timer: s.v[op_x(op) as int], pc: (s.pc + 2) as u16, ..s }
}

/// Add `Fx1E`: `I = I + Vx`.
pub open spec fn add3_spec(s: Chip8View, op: u16) -> Chip8View {
    Chip8View { i: (s.i + s.v[op_x(op) as int]) as u16, pc: (s.pc + 2) as u16, ..s }
}

/// Load `Fx29`: `I` points at the 5-byte glyph sprite for digit `Vx`.
pub open spec fn ld08_spec(s: Chip8View, op: u16) -> Chip8View {
    Chip8View { i: (s.v[op_x(op) as int] * 5) as u16, pc: (s.pc + 2) as u16, ..s }
}

/// BCD `Fx33`: the decimal digits of `Vx` go to memory at `I`, `I+1`, `I+2`.
pub open spec fn ld09_spec(s: Chip8View, op: u16) -> Chip8View {
    let val = s.v[op_x(op) as int];
    Chip8View {
        memory: s.memory.update(s.i as int, (val / 100) as u8).update(
            s.i + 1,
            ((val / 10) % 10) as u8,
        ).update(s.i + 2, (val % 10) as u8),
        pc: (s.pc + 2) as u16,
        ..s
    }
}

/// Store `Fx55`: registers `V0` through `Vx` go to memory starting at `I`.
pub open spec fn ld10_spec(s: Chip8View, op: u16) -> Chip8View {
    Chip8View {
        memory: Seq::new(
            s.memory.len(),
            |k: int|
                if s.i <= k <= s.i + op_x(op) {
                    s.v[k - s.i]
                } else {
                    s.memory[k]
                },
        ),
        pc: (s.pc + 2) as u16,
        ..s
    }
}

/// Load `Fx65`: registers `V0` through `Vx` are read from memory starting
/// at `I`.
pub open spec fn ld11_spec(s: Chip8View, op: u16) -> Chip8View {
    Chip8View {
        v: Seq::new(
            s.v.len(),
            |j: int|
                if j <= op_x(op) {
                    s.memory[s.i + j]
                } else {
                    s.v[j]
                },
        ),
        pc: (s.pc + 2) as u16,
        ..s
    }
}

/// Both timers count down by one, saturating at zero, after every executed
/// instruction.
pub open spec fn tick_timers(s: Chip8View) -> Chip8View {
    Chip8View {
        delay_timer: if s.delay_timer > 0 {
            (s.delay_timer - 1) as u8
        } else {
            0
        },
        sound_timer: if s.sound_timer > 0 {
            (s.sound_timer - 1) as u8
        } else {
            0
        },
        ..s
    }
}

/// Whether the instruction word matches some opcode pattern of the machine.
pub open spec fn known_opcode(op: u16) -> bool {
    let fam = op & 0xF000;
    ||| (fam == 0x0000 && (op == 0x00E0 || op == 0x00EE))
    ||| fam == 0x1000
    ||| fam == 0x2000
    ||| fam == 0x3000
    ||| fam == 0x4000
    ||| fam == 0x5000
    ||| fam == 0x6000
    ||| fam == 0x7000
    ||| (fam == 0x8000 && (op_n(op) <= 7 || op_n(op) == 0xE))
    ||| fam == 0x9000
    ||| fam == 0xA000
    ||| fam == 0xB000
    ||| fam == 0xC000
    ||| fam == 0xD000
    ||| (fam == 0xE000 && ((op & 0x00FF) == 0x9E || (op & 0x00FF) == 0xA1))
    ||| (fam == 0xF000 && ((op & 0x00FF) == 0x07 || (op & 0x00FF) == 0x0A || (op & 0x00FF)
        == 0x15 || (op & 0x00FF) == 0x18 || (op & 0x00FF) == 0x1E || (op & 0x00FF) == 0x29 || (op
        & 0x00FF) == 0x33 || (op & 0x00FF) == 0x55 || (op & 0x00FF) == 0x65))
}

/// The error a step reports for this instruction word in this state, if any:
/// an unknown word is a decode fault, a return on an empty stack an
/// underflow, a call on a full stack an overflow.
pub open spec fn step_fault(s: Chip8View, op: u16) -> Option<Chip8Error> {
    if !known_opcode(op) {
        Some(Chip8Error::DecodeFault)
    } else if (op & 0xF000) == 0x0000 && op == 0x00EE && s.sp == 0 {
        Some(Chip8Error::StackUnderflow)
    } else if (op & 0xF000) == 0x2000 && s.sp >= STACK_DEPTH {
        Some(Chip8Error::StackOverflow)
    } else {
        None
    }
}

/// The machine-limit side conditions under which this instruction word can
/// execute: addresses it touches stay inside memory and the 16-bit registers
/// it advances do not overflow.
pub open spec fn step_ready(s: Chip8View, op: u16) -> bool {
    let fam = op & 0xF000;
    &&& (fam == 0x0000 && op == 0x00EE && s.sp >= 1 ==> s.stack[s.sp - 1] + 2 <= u16::MAX)
    &&& (fam != 0x1000 && fam != 0x2000 && fam != 0xB000 && !(fam == 0x0000 && op == 0x00EE)
        ==> s.pc + 4 <= u16::MAX)
    &&& (fam == 0xD000 ==> s.i + op_n(op) <= MEMORY_SIZE)
    &&& (fam == 0xF000 && (op & 0x00FF) == 0x1E ==> s.i + s.v[op_x(op) as int] <= u16::MAX)
    &&& (fam == 0xF000 && (op & 0x00FF) == 0x33 ==> s.i + 3 <= MEMORY_SIZE)
    &&& (fam == 0xF000 && ((op & 0x00FF) == 0x55 || (op & 0x00FF) == 0x65) ==> s.i + op_x(op)
        < MEMORY_SIZE)
}

/// The meaning of one executed instruction, before the timer tick: the next
/// machine state, as a function of the current one, the instruction word, and
/// the byte `rb` drawn for the randomization instruction (which only `Cxkk`
/// reads).
pub open spec fn op_apply(s: Chip8View, op: u16, rb: u8) -> Chip8View {
    let fam = op & 0xF000;
    if fam == 0x0000 {
        if op == 0x00E0 {
            cls_spec(s)
        } else {
            ret_spec(s)
        }
    } else if fam == 0x1000 {
        jp1_spec(s, op)
    } else if fam == 0x2000 {
        call_spec(s, op)
    } else if fam == 0x3000 {
        se1_spec(s, op)
    } else if fam == 0x4000 {
        sne1_spec(s, op)
    } else if fam == 0x5000 {
        se2_spec(s, op)
    } else if fam == 0x6000 {
        ld01_spec(s, op)
    } else if fam == 0x7000 {
        add1_spec(s, op)
    } else if fam == 0x8000 {
        if op_n(op) == 0 {
            ld02_spec(s, op)
        } else if op_n(op) == 1 {
            or_spec(s, op)
        } else if op_n(op) == 2 {
            and_spec(s, op)
        } else if op_n(op) == 3 {
            xor_spec(s, op)
        } else if op_n(op) == 4 {
            add2_spec(s, op)
        } else if op_n(op) == 5 {
            sub_spec(s, op)
        } else if op_n(op) == 6 {
            shr_spec(s, op)
        } else if op_n(op) == 7 {
            subn_spec(s, op)
        } else {
            shl_spec(s, op)
        }
    } else if fam == 0x9000 {
        sne2_spec(s, op)
    } else if fam == 0xA000 {
        ld03_spec(s, op)
    } else if fam == 0xB000 {
        jp2_spec(s, op)
    } else if fam == 0xC000 {
        rnd_spec(s, op, rb)
    } else if fam == 0xD000 {
        drw_spec(s, op)
    } else if fam == 0xE000 {
        if (op & 0x00FF) == 0x9E {
            skp_spec(s, op)
        } else {
            sknp_spec(s, op)
        }
    } else {
        if (op & 0x00FF) == 0x07 {
            ld04_spec(s, op)
        } else if (op & 0x00FF) == 0x0A {
            ld05_spec(s, op)
        } else if (op & 0x00FF) == 0x15 {
            ld06_spec(s, op)
        } else if (op & 0x00FF) == 0x18 {
            ld07_spec(s, op)
        } else if (op & 0x00FF) == 0x1E {
            add3_spec(s, op)
        } else if (op & 0x00FF) == 0x29 {
            ld08_spec(s, op)
        } else if (op & 0x00FF) == 0x33 {
            ld09_spec(s, op)
        } else if (op & 0x00FF) == 0x55 {
            ld10_spec(s, op)
        } else {
            ld11_spec(s, op)
        }
    }
}

/// The meaning of one full step on instruction word `op`: the instruction's
/// effect followed by the timer tick.
pub open spec fn step_spec(s: Chip8View, op: u16, rb: u8) -> Chip8View {
    tick_timers(op_apply(s, op, rb))
}

/// The key-wait instruction suspends the program: with no key pressed, a
/// step changes nothing but the timers, so steps can repeat any number of
/// times with the program counter, registers, memory and framebuffer
/// standing still.
pub proof fn lemma_key_wait_holds_state(s: Chip8View, op: u16, rb1: u8, rb2: u8)
    requires
        s.wf(),
        (op & 0xF000) == 0xF000,
        (op & 0x00FF) == 0x000A,
        forall|k: int| 0 <= k < NUM_KEYS ==> !s.keyboard[k],
    ensures
        step_fault(s, op) is None,
        step_spec(s, op, rb1) == tick_timers(s),
        step_spec(step_spec(s, op, rb1), op, rb2).pc == s.pc,
        step_spec(step_spec(s, op, rb1), op, rb2).v == s.v,
        step_spec(step_spec(s, op, rb1), op, rb2).memory == s.memory,
        step_spec(step_spec(s, op, rb1), op, rb2).display == s.display,
{
    lemma_first_pressed_lowest(s.keyboard);
    assert(step_spec(s, op, rb1) =~= tick_timers(s));
    let s1 = step_spec(s, op, rb1);
    lemma_first_pressed_lowest(s1.keyboard);
}

/// Once a key is pressed, the key-wait instruction moves on: the program
/// counter advances by one instruction and the target register receives the
/// lowest-indexed pressed key.
pub proof fn lemma_key_wait_press(s: Chip8View, op: u16, rb: u8)
    requires
        s.wf(),
        (op & 0xF000) == 0xF000,
        (op & 0x00FF) == 0x000A,
        exists|k: int| 0 <= k < NUM_KEYS && s.keyboard[k],
        s.pc + 2 <= u16::MAX,
    ensures
        step_fault(s, op) is None,
        step_spec(s, op, rb).pc == s.pc + 2,
        step_spec(s, op, rb).v == s.v.update(op_x(op) as int, first_pressed(s.keyboard) as u8),
        0 <= first_pressed(s.keyboard) < NUM_KEYS,
        s.keyboard[first_pressed(s.keyboard)],
        forall|k: int| 0 <= k < first_pressed(s.keyboard) ==> !s.keyboard[k],
{
    lemma_first_pressed_lowest(s.keyboard);
}

/// A call followed by a return resumes just past the call site: the call
/// pushes the current program counter and jumps, and the return pops that
/// address, resumes one instruction width beyond it, and leaves the stack
/// pointer where it started.
pub proof fn lemma_call_ret_round_trip(s: Chip8View, op: u16, rb1: u8, rb2: u8)
    requires
        s.wf(),
        (op & 0xF000) == 0x2000,
        s.sp < STACK_DEPTH,
        s.pc + 2 <= u16::MAX,
    ensures
        step_fault(s, op) is None,
        ({
            let s1 = step_spec(s, op, rb1);
            &&& s1.pc == op_nnn(op)
            &&& s1.stack[s.sp as int] == s.pc
            &&& s1.sp == s.sp + 1
            &&& step_fault(s1, 0x00EE) is None
            &&& step_spec(s1, 0x00EE, rb2).pc == s.pc + 2
            &&& step_spec(s1, 0x00EE, rb2).sp == s.sp
        }),
{
    assert(0x00EEu16 & 0xF000 == 0x0000) by (bit_vector);
    let s1 = step_spec(s, op, rb1);
    assert(s1.stack[s.sp as int] == s.pc);
}

/// The instruction word fetched at the program counter: two consecutive
/// bytes, most significant first.
pub open spec fn fetched(s: Chip8View) -> u16 {
    ((s.memory[s.pc as int] as u16) << 8u16) | (s.memory[s.pc as int + 1] as u16)
}

/// The machine after a program image has been loaded: the initial state with
/// the image copied in starting at `PROGRAM_START`.
pub open spec fn load_spec(rom: Seq<u8>) -> Chip8View {
    let ini = init_spec();
    Chip8View {
        memory: Seq::new(
            MEMORY_SIZE as nat,
            |k: int|
                if PROGRAM_START <= k < PROGRAM_START + rom.len() {
                    rom[k - PROGRAM_START]
                } else {
                    ini.memory[k]
                },
        ),
        ..ini
    }
}

} // verus!

