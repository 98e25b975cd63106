//! The instruction sets the assembler can target (Linux only for now).
use vstd::prelude::*;
use crate::common::{le_i32, le_i32_bytes, le_u32, le_u32_bytes, spec_reg, splice, write_at};
use crate::encoder::arm::from_le;
use crate::text::{chars_eq, copy_range, to_chars, trim, trim_char, trim_range, trimmed, Strip};

verus! {

/// Which encoder an [`Isa`] uses.
#[derive(Clone, Copy, PartialEq, Eq, Structural, Debug)]
pub enum Arch {
    X86_64,
    Aarch64,
}

/// An instruction set: its register names, the fixed encodings of its simple instructions,
/// and the conventions of its Linux system calls.
#[allow(non_snake_case)]
pub struct Isa {
    pub NAME: &'static str,
    pub MACHINE: u16,
    pub REGS: Vec<(&'static str, u8)>,
    pub SYSCALL_ARGS: Vec<&'static str>,
    pub SYSCALL_NUM: &'static str,
    pub SYSCALL: Vec<u8>,
    pub STORE: Vec<u8>,
    pub LOAD: Vec<u8>,
    pub JUMP: Vec<u8>,
    pub CALL: Vec<u8>,
    pub RET: Vec<u8>,
    pub EXIT: &'static str,
    pub WRITE: &'static str,
    pub STACK: &'static str,
    pub REL_WIDTH: usize,
    pub ARCH: Arch,
}

/// The first entry of `table` named `name`, if any.
pub open spec fn find_reg(table: Seq<(&'static str, u8)>, name: Seq<char>) -> Option<u8>
    decreases table.len(),
{
    if table.len() == 0 {
        None
    } else if table[0].0@ == name {
        Some(table[0].1)
    } else {
        find_reg(table.drop_first(), name)
    }
}

impl Isa {
    /// The register that `name` denotes: surrounding whitespace and `|` are ignored, and
    /// `stack` is the stack pointer's name.
    pub open spec fn spec_reg(&self, name: Seq<char>) -> Option<u8> {
        let n = trim_char(trim(name), '|');
        let n = if n == "stack"@ {
            self.STACK@
        } else {
            n
        };
        find_reg(self.REGS@, n)
    }

    /// The register that `name[lo..hi]` denotes, if it denotes one.
    pub fn reg_of(&self, name: &Vec<char>, lo: usize, hi: usize) -> (r: Option<u8>)
        requires
            lo <= hi <= name.len(),
        ensures
            r == self.spec_reg(name@.subrange(lo as int, hi as int)),
    {
        let (i, j) = trim_range(name, lo, hi, Strip::Whitespace);
        let (i, j) = trim_range(name, i, j, Strip::Char('|'));
        let n = copy_range(name, i, j);
        let n = if chars_eq(&n, &to_chars("stack")) {
            to_chars(self.STACK)
        } else {
            n
        };
        assert(self.REGS@.skip(0) == self.REGS@);
        let mut k: usize = 0;
        while k < self.REGS.len()
            invariant
                0 <= k <= self.REGS.len(),
                self.spec_reg(name@.subrange(lo as int, hi as int)) == find_reg(self.REGS@, n@),
                find_reg(self.REGS@, n@) == find_reg(self.REGS@.skip(k as int), n@),
            decreases self.REGS.len() - k,
        {
            let entry = to_chars(self.REGS[k].0);
            assert(self.REGS@.skip(k as int).drop_first() == self.REGS@.skip(k + 1));
            if chars_eq(&entry, &n) {
                return Some(self.REGS[k].1);
            }
            k += 1;
        }
        None
    }

    /// The register that `name` denotes.
    pub fn reg(&self, name: &str) -> (r: u8)
        requires
            self.spec_reg(name@) is Some,
        ensures
            self.spec_reg(name@) == Some(r),
    {
        let v = to_chars(name);
        assert(v@.subrange(0, v@.len() as int) == v@);
        self.reg_of(&v, 0, v.len()).unwrap()
    }
}


pub open spec fn x86_64_regs() -> Seq<(&'static str, u8)> {
    seq![
        ("r0", 0u8),
        ("r1", 1u8),
        ("r2", 2u8),
        ("r3", 3u8),
        ("r4", 4u8),
        ("r5", 5u8),
        ("r6", 6u8),
        ("r7", 7u8),
    ]
}

pub open spec fn aarch64_regs() -> Seq<(&'static str, u8)> {
    seq![
        ("r0", 0u8),
        ("r1", 1u8),
        ("r2", 2u8),
        ("r3", 3u8),
        ("r4", 4u8),
        ("r5", 5u8),
        ("r6", 6u8),
        ("r7", 8u8),
        ("r31", 31u8),
    ]
}

/// The x86-64 target.
pub open spec fn is_x86_64(isa: &Isa) -> bool {
    &&& isa.NAME == "x86_64"
    &&& isa.MACHINE == 0x3e
    &&& isa.REGS@ == x86_64_regs()
    &&& isa.SYSCALL_ARGS@ == seq!["r7", "r6", "r2"]
    &&& isa.SYSCALL_NUM == "r0"
    &&& isa.SYSCALL@ == seq![0x0Fu8, 0x05u8]
    &&& isa.STORE@ == seq![0x48u8, 0x89u8]
    &&& isa.LOAD@ == seq![0x48u8, 0x8Bu8]
    &&& isa.JUMP@ == seq![0xE9u8]
    &&& isa.CALL@ == seq![0xE8u8]
    &&& isa.RET@ == seq![0xC3u8]
    &&& isa.EXIT == "60"
    &&& isa.WRITE == "1"
    &&& isa.STACK == "r4"
    &&& isa.REL_WIDTH == 4
    &&& isa.ARCH == Arch::X86_64
}

/// On x86-64 the target's register names are those of the byte stream: every name but
/// `stack` denotes the same register under `Isa::reg` as under `common::reg`.
pub proof fn lemma_x86_names_agree(isa: &Isa, name: Seq<char>)
    requires
        is_x86_64(isa),
        trim_char(trim(name), '|') != "stack"@,
    ensures
        isa.spec_reg(name) == spec_reg(name),
{
    let n = trim_char(trim(name), '|');
    reveal_strlit("r0");
    reveal_strlit("r1");
    reveal_strlit("r2");
    reveal_strlit("r3");
    reveal_strlit("r4");
    reveal_strlit("r5");
    reveal_strlit("r6");
    reveal_strlit("r7");
    reveal_with_fuel(find_reg, 9);
    if n.len() == 2 && n[0] == 'r' && '0' <= n[1] <= '7' {
        if n[1] == '0' {
            assert(n =~= "r0"@);
        } else if n[1] == '1' {
            assert(n =~= "r1"@);
        } else if n[1] == '2' {
            assert(n =~= "r2"@);
        } else if n[1] == '3' {
            assert(n =~= "r3"@);
        } else if n[1] == '4' {
            assert(n =~= "r4"@);
        } else if n[1] == '5' {
            assert(n =~= "r5"@);
        } else if n[1] == '6' {
            assert(n =~= "r6"@);
        } else {
            assert(n =~= "r7"@);
        }
    }
}

/// The AArch64 target.
pub open spec fn is_aarch64(isa: &Isa) -> bool {
    &&& isa.NAME == "aarch64"
    &&& isa.MACHINE == 0xb7
    &&& isa.REGS@ == aarch64_regs()
    &&& isa.SYSCALL_ARGS@ == seq!["r0", "r1", "r2"]
    &&& isa.SYSCALL_NUM == "r7"
    &&& isa.SYSCALL@ == seq![0x01u8, 0x00u8, 0x00u8, 0xD4u8]
    &&& isa.STORE@ == seq![0x00u8, 0x00u8, 0x00u8, 0xF9u8]
    &&& isa.LOAD@ == seq![0x00u8, 0x00u8, 0x40u8, 0xF9u8]
    &&& isa.JUMP@ == seq![0x00u8, 0x00u8, 0x00u8, 0x14u8]
    &&& isa.CALL@ == seq![0x00u8, 0x00u8, 0x00u8, 0x94u8]
    &&& isa.RET@ == seq![0xC0u8, 0x03u8, 0x5Fu8, 0xD6u8]
    &&& isa.EXIT == "93"
    &&& isa.WRITE == "64"
    &&& isa.STACK == "r31"
    &&& isa.REL_WIDTH == 0
    &&& isa.ARCH == Arch::Aarch64
}

/// The target of an architecture.
pub open spec fn is_isa_of(isa: &Isa, arch: Arch) -> bool {
    match arch {
        Arch::X86_64 => is_x86_64(isa),
        Arch::Aarch64 => is_aarch64(isa),
    }
}

fn one_byte(b: u8) -> (v: Vec<u8>)
    ensures
        v@ == seq![b],
{
    let mut v = Vec::new();
    v.push(b);
    v
}

/// The x86-64 target.
pub fn x86_64() -> (isa: Isa)
    ensures
        is_x86_64(&isa),
{
    Isa {
        NAME: "x86_64",
        MACHINE: 0x3e,
        REGS: vec![
            ("r0", 0),
            ("r1", 1),
            ("r2", 2),
            ("r3", 3),
            ("r4", 4),
            ("r5", 5),
            ("r6", 6),
            ("r7", 7),
        ],
        SYSCALL_ARGS: vec!["r7", "r6", "r2"],
        SYSCALL_NUM: "r0",
        SYSCALL: vec![0x0F, 0x05],
        STORE: vec![0x48, 0x89],
        LOAD: vec![0x48, 0x8B],
        JUMP: one_byte(0xE9),
        CALL: one_byte(0xE8),
        RET: one_byte(0xC3),
        EXIT: "60",
        WRITE: "1",
        STACK: "r4",
        REL_WIDTH: 4,
        ARCH: Arch::X86_64,
    }
}

/// The AArch64 target.
pub fn aarch64() -> (isa: Isa)
    ensures
        is_aarch64(&isa),
{
    Isa {
        NAME: "aarch64",
        MACHINE: 0xb7,
        REGS: vec![
            ("r0", 0),
            ("r1", 1),
            ("r2", 2),
            ("r3", 3),
            ("r4", 4),
            ("r5", 5),
            ("r6", 6),
            ("r7", 8),
            ("r31", 31),
        ],
        SYSCALL_ARGS: vec!["r0", "r1", "r2"],
        SYSCALL_NUM: "r7",
        SYSCALL: vec![0x01, 0x00, 0x00, 0xD4],
        STORE: vec![0x00, 0x00, 0x00, 0xF9],
        LOAD: vec![0x00, 0x00, 0x40, 0xF9],
        JUMP: vec![0x00, 0x00, 0x00, 0x14],
        CALL: vec![0x00, 0x00, 0x00, 0x94],
        RET: vec![0xC0, 0x03, 0x5F, 0xD6],
        EXIT: "93",
        WRITE: "64",
        STACK: "r31",
        REL_WIDTH: 0,
        ARCH: Arch::Aarch64,
    }
}

/// Every target, each once; no two share an ELF machine number.
pub fn all() -> (r: Vec<Isa>)
    ensures
        r.len() == 2,
        is_x86_64(&r[0]),
        is_aarch64(&r[1]),
        forall|i: int, j: int|
            0 <= i < r.len() && 0 <= j < r.len() && i != j ==> r[i].MACHINE != r[j].MACHINE,
{
    vec![x86_64(), aarch64()]
}

/// `c` with ASCII upper case letters lowered (`char::to_ascii_lowercase`).
pub open spec fn ascii_lower(c: char) -> char {
    if 'A' <= c <= 'Z' {
        ((c as u32) + 32) as char
    } else {
        c
    }
}

/// The architecture that a target name (or alias) names: surrounding whitespace is ignored,
/// and ASCII letters in any case.
pub open spec fn target_arch(name: Seq<char>) -> Option<Arch> {
    let n = trim(name).map_values(|c: char| ascii_lower(c));
    if n == "x86"@ || n == "x86_64"@ || n == "x64"@ || n == "amd"@ || n == "amd64"@ {
        Some(Arch::X86_64)
    } else if n == "arm"@ || n == "arm64"@ || n == "aarch64"@ {
        Some(Arch::Aarch64)
    } else {
        None
    }
}

/// Every alias names the target of its list, in any ASCII case and with surrounding
/// whitespace ignored: `x86`, `x86_64`, `x64`, `amd` and `amd64` name x86-64, `arm`, `arm64`
/// and `aarch64` name AArch64, and nothing else names a target.
pub proof fn lemma_target_aliases(name: Seq<char>)
    ensures
        ({
            let n = trim(name).map_values(|c: char| ascii_lower(c));
            &&& (n == "x86"@ || n == "x86_64"@ || n == "x64"@ || n == "amd"@ || n == "amd64"@)
                ==> target_arch(name) == Some(Arch::X86_64)
            &&& (n == "arm"@ || n == "arm64"@ || n == "aarch64"@) ==> target_arch(name) == Some(
                Arch::Aarch64,
            )
            &&& !(n == "x86"@ || n == "x86_64"@ || n == "x64"@ || n == "amd"@ || n == "amd64"@
                || n == "arm"@ || n == "arm64"@ || n == "aarch64"@) ==> target_arch(name) is None
        }),
{
    reveal_strlit("x86");
    reveal_strlit("x86_64");
    reveal_strlit("x64");
    reveal_strlit("amd");
    reveal_strlit("amd64");
    reveal_strlit("arm");
    reveal_strlit("arm64");
    reveal_strlit("aarch64");
    let n = trim(name).map_values(|c: char| ascii_lower(c));
    if n == "arm"@ || n == "arm64"@ || n == "aarch64"@ {
        assert(n[0] == 'a');
        assert(n != "x86"@ && n != "x86_64"@ && n != "x64"@);
        if n == "arm64"@ {
            assert(n[1] == 'r');
            assert(n != "amd"@ && n != "amd64"@);
        } else if n == "arm"@ {
            assert(n[1] == 'r');
            assert(n != "amd"@ && n != "amd64"@);
        } else {
            assert(n[1] == 'a');
            assert(n != "amd"@ && n != "amd64"@);
        }
    }
}

fn lowered(v: &Vec<char>) -> (r: Vec<char>)
    ensures
        r@ == v@.map_values(|c: char| ascii_lower(c)),
{
    let mut r: Vec<char> = Vec::new();
    for i in 0..v.len()
        invariant
            r@ == v@.take(i as int).map_values(|c: char| ascii_lower(c)),
    {
        let c = v[i];
        let l = if 'A' <= c && c <= 'Z' {
            ((c as u8) + 32) as char
        } else {
            c
        };
        r.push(l);
        assert(v@.take(i + 1).map_values(|c: char| ascii_lower(c)) =~= v@.take(i as int).map_values(
            |c: char| ascii_lower(c),
        ).push(l));
    }
    r
}

/// The target that `name` names, if any.
pub fn find(name: &str) -> (r: Option<Isa>)
    ensures
        r is Some <==> target_arch(name@) is Some,
        r matches Some(isa) ==> is_isa_of(&isa, target_arch(name@)->0),
{
    let v = to_chars(name);
    assert(v@.subrange(0, v@.len() as int) == v@);
    let n = lowered(&trimmed(&v, 0, v.len()));
    if chars_eq(&n, &to_chars("x86")) || chars_eq(&n, &to_chars("x86_64")) || chars_eq(
        &n,
        &to_chars("x64"),
    ) || chars_eq(&n, &to_chars("amd")) || chars_eq(&n, &to_chars("amd64")) {
        Some(x86_64())
    } else if chars_eq(&n, &to_chars("arm")) || chars_eq(&n, &to_chars("arm64")) || chars_eq(
        &n,
        &to_chars("aarch64"),
    ) {
        Some(aarch64())
    } else {
        None
    }
}

/// The target that `name` names.
pub fn get(name: &str) -> (isa: Isa)
    requires
        target_arch(name@) is Some,
    ensures
        is_isa_of(&isa, target_arch(name@)->0),
{
    find(name).unwrap()
}

/// The rel32 that an x86-64 jump or call whose 4-byte field sits at `slot` holds to reach
/// `target`: the distance from the end of the field, with both offsets taken as `i32`.
pub open spec fn x86_rel(slot: usize, target: usize) -> int {
    (target as i32) as int - ((slot as i32) as int + 4)
}

/// Whether the x86-64 displacement can be computed without overflow.
pub open spec fn x86_patch_ok(out_len: nat, slot: usize, target: usize) -> bool {
    &&& slot + 4 <= out_len
    &&& (slot as i32) as int + 4 <= i32::MAX
    &&& i32::MIN <= x86_rel(slot, target) <= i32::MAX
}

/// Fills the rel32 field at `slot` of an x86-64 jump or call so that it reaches `target`.
pub fn patch_x86(out: &mut Vec<u8>, slot: usize, target: usize)
    requires
        x86_patch_ok(old(out)@.len(), slot, target),
    ensures
        final(out)@ == splice(old(out)@, slot as int, le_i32(x86_rel(slot, target) as i32)),
{
    let rel: i32 = (#[verifier::truncate] (target as i32)) - ((#[verifier::truncate] (slot as i32)) + 4);
    let bytes = le_i32_bytes(rel);
    write_at(out, slot, &bytes);
}

/// Rust's `/` on `x` by 4: the quotient rounded towards zero.
pub open spec fn quarter(x: int) -> int {
    if x >= 0 {
        x / 4
    } else {
        -((-x) / 4)
    }
}

/// Whether `word` is an `ADR` instruction.
pub open spec fn is_adr(word: u32) -> bool {
    word & 0x9F00_0000 == 0x1000_0000
}

/// Whether `word` is a conditional branch `B.cond`.
pub open spec fn is_branch_cond(word: u32) -> bool {
    word & 0xFF00_0010 == 0x5400_0000
}

/// The AArch64 instruction `word` with the byte distance `offset` to its target filled in:
/// for `ADR` the 21-bit byte offset split into bits 29-30 and 5-23; for `B.cond` the 19-bit
/// word offset at bits 5-23; for any other (`B`, `BL`) the 26-bit word offset at bits 0-25.
pub open spec fn patched_word(word: u32, offset: i64) -> u32 {
    if is_adr(word) {
        let imm = (offset as u32) & 0x1F_FFFF;
        word | ((imm & 0b11) << 29u32) | ((imm >> 2u32) << 5u32)
    } else if is_branch_cond(word) {
        word | ((((quarter(offset as int) as i64) as u32) & 0x7_FFFF) << 5u32)
    } else {
        word | (((quarter(offset as int) as i64) as u32) & 0x03FF_FFFF)
    }
}

/// The distance from `start` to `target`, both taken as `i64`.
pub open spec fn arm_offset(start: usize, target: usize) -> int {
    (target as i64) as int - (start as i64) as int
}

/// Whether the AArch64 distance can be computed without overflow.
pub open spec fn aarch64_patch_ok(out_len: nat, start: usize, target: usize) -> bool {
    &&& start + 4 <= out_len
    &&& i64::MIN <= arm_offset(start, target) <= i64::MAX
}

/// Fills the offset field of the AArch64 instruction at `start` so that it reaches `target`.
pub fn patch_aarch64(out: &mut Vec<u8>, start: usize, target: usize)
    requires
        aarch64_patch_ok(old(out)@.len(), start, target),
    ensures
        final(out)@ == splice(
            old(out)@,
            start as int,
            le_u32(
                patched_word(
                    from_le(old(out)@.subrange(start as int, start + 4)),
                    arm_offset(start, target) as i64,
                ),
            ),
        ),
{
    assert(start + 4 <= out.len());
    let word: u32 = (out[start] as u32) | ((out[start + 1] as u32) << 8) | ((out[start + 2] as u32)
        << 16) | ((out[start + 3] as u32) << 24);
    let offset: i64 = (#[verifier::truncate] (target as i64)) - (#[verifier::truncate] (start as i64));
    let quotient: i64 = offset.checked_div(4).unwrap();
    let patched: u32 = if word & 0x9F00_0000 == 0x1000_0000 {
        let imm: u32 = (#[verifier::truncate] (offset as u32)) & 0x1F_FFFF;
        word | ((imm & 0b11) << 29) | ((imm >> 2) << 5)
    } else if word & 0xFF00_0010 == 0x5400_0000 {
        word | (((#[verifier::truncate] (quotient as u32)) & 0x7_FFFF) << 5)
    } else {
        word | ((#[verifier::truncate] (quotient as u32)) & 0x03FF_FFFF)
    };
    let bytes = le_u32_bytes(patched);
    write_at(out, start, &bytes);
}

/// The signed value of a 19-bit two's complement field.
pub open spec fn signed19(f: u32) -> int {
    if f >= 0x4_0000 {
        f - 0x8_0000
    } else {
        f as int
    }
}

/// The signed value of a 21-bit two's complement field.
pub open spec fn signed21(f: u32) -> int {
    if f >= 0x10_0000 {
        f - 0x20_0000
    } else {
        f as int
    }
}

/// The signed value of a 26-bit two's complement field.
pub open spec fn signed26(f: u32) -> int {
    if f >= 0x200_0000 {
        f - 0x400_0000
    } else {
        f as int
    }
}

proof fn lemma_quarter_exact(x: int)
    requires
        x % 4 == 0,
    ensures
        quarter(x) * 4 == x,
{
    if x < 0 {
        assert((-x) % 4 == 0 && ((-x) / 4) * 4 == -x) by (nonlinear_arith)
            requires x % 4 == 0, x < 0;
    } else {
        assert((x / 4) * 4 == x) by (nonlinear_arith)
            requires x % 4 == 0, x >= 0;
    }
}

/// The word of a patched `B.cond` holds the distance in words in its 19-bit field (bits 5 to
/// 23), where the field was empty, and keeps its other bits.
proof fn lemma_branch_cond_field(w: u32, q: i64)
    requires
        (w >> 5u32) & 0x7_FFFF == 0,
        -0x4_0000 <= q < 0x4_0000,
    ensures
        ({
            let w2 = w | (((q as u32) & 0x7_FFFF) << 5u32);
            &&& signed19((w2 >> 5u32) & 0x7_FFFF) == q
            &&& w2 & 0xFF00_001F == w & 0xFF00_001F
        }),
{
    let w2 = w | (((q as u32) & 0x7_FFFF) << 5u32);
    let f = (w2 >> 5u32) & 0x7_FFFF;
    assert(f == (q as u32) & 0x7_FFFF && w2 & 0xFF00_001F == w & 0xFF00_001F) by (bit_vector)
        requires
            w2 == w | (((q as u32) & 0x7_FFFF) << 5u32),
            (w >> 5u32) & 0x7_FFFF == 0,
            f == (w2 >> 5u32) & 0x7_FFFF,
    ;
    assert((f < 0x4_0000 ==> f as i64 == q) && (f >= 0x4_0000 ==> f as i64 - 0x8_0000 == q)) by (bit_vector)
        requires
            f == (q as u32) & 0x7_FFFF,
            -0x4_0000 <= q < 0x4_0000,
    ;
}

/// The word of a patched `B` or `BL` holds the distance in words in its 26-bit field (bits 0
/// to 25), where the field was empty, and keeps its opcode.
proof fn lemma_branch_field(w: u32, q: i64)
    requires
        w & 0x03FF_FFFF == 0,
        -0x200_0000 <= q < 0x200_0000,
    ensures
        ({
            let w2 = w | ((q as u32) & 0x03FF_FFFF);
            &&& signed26(w2 & 0x03FF_FFFF) == q
            &&& w2 & 0xFC00_0000 == w & 0xFC00_0000
        }),
{
    let w2 = w | ((q as u32) & 0x03FF_FFFF);
    let f = w2 & 0x03FF_FFFF;
    assert(f == (q as u32) & 0x03FF_FFFF && w2 & 0xFC00_0000 == w & 0xFC00_0000) by (bit_vector)
        requires
            w2 == w | ((q as u32) & 0x03FF_FFFF),
            w & 0x03FF_FFFF == 0,
            f == w2 & 0x03FF_FFFF,
    ;
    assert((f < 0x200_0000 ==> f as i64 == q) && (f >= 0x200_0000 ==> f as i64 - 0x400_0000 == q)) by (bit_vector)
        requires
            f == (q as u32) & 0x03FF_FFFF,
            -0x200_0000 <= q < 0x200_0000,
    ;
}

/// The word of a patched `ADR` holds the distance in bytes in its 21-bit field (low two bits
/// at 29 to 30, the rest at 5 to 23), where the field was empty, and keeps its other bits.
proof fn lemma_adr_field(w: u32, o: i64)
    requires
        (w >> 5u32) & 0x7_FFFF == 0,
        (w >> 29u32) & 3 == 0,
        -0x10_0000 <= o < 0x10_0000,
    ensures
        ({
            let imm = (o as u32) & 0x1F_FFFF;
            let w2 = w | ((imm & 0b11) << 29u32) | ((imm >> 2u32) << 5u32);
            &&& signed21((((w2 >> 5u32) & 0x7_FFFF) << 2u32) | ((w2 >> 29u32) & 3)) == o
            &&& w2 & 0x9F00_001F == w & 0x9F00_001F
        }),
{
    let imm = (o as u32) & 0x1F_FFFF;
    let w2 = w | ((imm & 0b11) << 29u32) | ((imm >> 2u32) << 5u32);
    let f = (((w2 >> 5u32) & 0x7_FFFF) << 2u32) | ((w2 >> 29u32) & 3);
    assert(f == imm && w2 & 0x9F00_001F == w & 0x9F00_001F) by (bit_vector)
        requires
            imm == (o as u32) & 0x1F_FFFF,
            w2 == w | ((imm & 0b11) << 29u32) | ((imm >> 2u32) << 5u32),
            (w >> 5u32) & 0x7_FFFF == 0,
            (w >> 29u32) & 3 == 0,
            f == (((w2 >> 5u32) & 0x7_FFFF) << 2u32) | ((w2 >> 29u32) & 3),
    ;
    assert((f < 0x10_0000 ==> f as i64 == o) && (f >= 0x10_0000 ==> f as i64 - 0x20_0000 == o)) by (bit_vector)
        requires
            f == (o as u32) & 0x1F_FFFF,
            -0x10_0000 <= o < 0x10_0000,
    ;
}

proof fn lemma_le_u32_back(x: u32)
    ensures
        from_le(le_u32(x)) == x,
{
    let (b0, b1, b2, b3) = ((x & 0xff) as u8, ((x >> 8u32) & 0xff) as u8, ((x >> 16u32) & 0xff) as u8, ((x >> 24u32) & 0xff) as u8);
    assert((b0 as u32) | ((b1 as u32) << 8u32) | ((b2 as u32) << 16u32) | ((b3 as u32) << 24u32) == x) by (bit_vector)
        requires
            b0 == (x & 0xff) as u8,
            b1 == ((x >> 8u32) & 0xff) as u8,
            b2 == ((x >> 16u32) & 0xff) as u8,
            b3 == ((x >> 24u32) & 0xff) as u8,
    ;
}

proof fn lemma_splice_word(out: Seq<u8>, at: int, b: Seq<u8>)
    requires
        0 <= at,
        at + b.len() <= out.len(),
    ensures
        splice(out, at, b).len() == out.len(),
        splice(out, at, b).subrange(at, at + b.len()) == b,
        forall|k: int|
            0 <= k < out.len() && !(at <= k < at + b.len()) ==> #[trigger] splice(out, at, b)[k]
                == out[k],
{
    assert(splice(out, at, b).subrange(at, at + b.len()) =~= b);
}

/// After an x86-64 jump or call is patched, its rel32 field, read back as a signed number,
/// leads from the end of the field to `target`; no other byte changes.
pub proof fn lemma_x86_patch_reaches(out: Seq<u8>, slot: usize, target: usize)
    requires
        x86_patch_ok(out.len(), slot, target),
        target <= i32::MAX,
        slot + 4 <= i32::MAX,
    ensures
        ({
            let o2 = splice(out, slot as int, le_i32(x86_rel(slot, target) as i32));
            &&& o2.len() == out.len()
            &&& slot + 4 + (from_le(o2.subrange(slot as int, slot + 4)) as i32) == target
            &&& forall|k: int| 0 <= k < out.len() && !(slot <= k < slot + 4) ==> #[trigger] o2[k] == out[k]
        }),
{
    let rel = x86_rel(slot, target) as i32;
    lemma_splice_word(out, slot as int, le_i32(rel));
    lemma_le_u32_back(rel as u32);
    assert((rel as u32) as i32 == rel) by (bit_vector);
    assert((target as i32) as int == target);
    assert((slot as i32) as int == slot);
}

/// After an AArch64 branch or address instruction is patched, the offset field that its kind
/// has, read back as a signed number (in words for `B.cond`, `B` and `BL`, in bytes for
/// `ADR`), is the distance from the instruction to `target`, where that field was empty and
/// the distance fits it; the other bits of the instruction, and every other byte, stay.
pub proof fn lemma_aarch64_patch_reaches(out: Seq<u8>, start: usize, target: usize)
    requires
        aarch64_patch_ok(out.len(), start, target),
    ensures
        ({
            let w = from_le(out.subrange(start as int, start + 4));
            let off = arm_offset(start, target);
            let o2 = splice(out, start as int, le_u32(patched_word(w, off as i64)));
            let w2 = from_le(o2.subrange(start as int, start + 4));
            &&& o2.len() == out.len()
            &&& forall|k: int| 0 <= k < out.len() && !(start <= k < start + 4) ==> #[trigger] o2[k] == out[k]
            &&& (is_branch_cond(w) && !is_adr(w) && (w >> 5u32) & 0x7_FFFF == 0 && off % 4 == 0
                && -0x10_0000 <= off < 0x10_0000) ==> signed19((w2 >> 5u32) & 0x7_FFFF) * 4 == off
                && w2 & 0xFF00_001F == w & 0xFF00_001F
            &&& (!is_branch_cond(w) && !is_adr(w) && w & 0x03FF_FFFF == 0 && off % 4 == 0
                && -0x800_0000 <= off < 0x800_0000) ==> signed26(w2 & 0x03FF_FFFF) * 4 == off && w2
                & 0xFC00_0000 == w & 0xFC00_0000
            &&& (is_adr(w) && (w >> 5u32) & 0x7_FFFF == 0 && (w >> 29u32) & 3 == 0 && -0x10_0000
                <= off < 0x10_0000) ==> signed21((((w2 >> 5u32) & 0x7_FFFF) << 2u32) | ((w2
                >> 29u32) & 3)) == off && w2 & 0x9F00_001F == w & 0x9F00_001F
        }),
{
    let w = from_le(out.subrange(start as int, start + 4));
    let off = arm_offset(start, target);
    let pw = patched_word(w, off as i64);
    lemma_splice_word(out, start as int, le_u32(pw));
    lemma_le_u32_back(pw);
    if off % 4 == 0 {
        lemma_quarter_exact(off);
    }
    if is_adr(w) {
        if (w >> 5u32) & 0x7_FFFF == 0 && (w >> 29u32) & 3 == 0 && -0x10_0000 <= off < 0x10_0000 {
            lemma_adr_field(w, off as i64);
        }
    } else if is_branch_cond(w) {
        if (w >> 5u32) & 0x7_FFFF == 0 && off % 4 == 0 && -0x10_0000 <= off < 0x10_0000 {
            lemma_branch_cond_field(w, quarter(off) as i64);
            assert(quarter(off as i64 as int) == quarter(off));
        }
    } else {
        if w & 0x03FF_FFFF == 0 && off % 4 == 0 && -0x800_0000 <= off < 0x800_0000 {
            lemma_branch_field(w, quarter(off) as i64);
            assert(quarter(off as i64 as int) == quarter(off));
        }
    }
}

impl Isa {
    /// Whether `patch` can fill the instruction at `start` (field at `slot`) of `out`.
    pub open spec fn patch_ok(&self, out_len: nat, start: usize, slot: usize, target: usize) -> bool {
        match self.ARCH {
            Arch::X86_64 => x86_patch_ok(out_len, slot, target),
            Arch::Aarch64 => aarch64_patch_ok(out_len, start, target),
        }
    }

    /// What `patch` leaves in `out`.
    pub open spec fn patched(&self, out: Seq<u8>, start: usize, slot: usize, target: usize) -> Seq<u8> {
        match self.ARCH {
            Arch::X86_64 => splice(out, slot as int, le_i32(x86_rel(slot, target) as i32)),
            Arch::Aarch64 => splice(
                out,
                start as int,
                le_u32(
                    patched_word(
                        from_le(out.subrange(start as int, start + 4)),
                        arm_offset(start, target) as i64,
                    ),
                ),
            ),
        }
    }

    /// Makes the jump, call or address instruction that begins at `start`, and whose
    /// relative field (on x86-64) begins at `slot`, refer to the offset `target`.
    pub fn patch(&self, out: &mut Vec<u8>, start: usize, slot: usize, target: usize)
        requires
            self.patch_ok(old(out)@.len(), start, slot, target),
        ensures
            final(out)@ == self.patched(old(out)@, start, slot, target),
    {
        match self.ARCH {
            Arch::X86_64 => patch_x86(out, slot, target),
            Arch::Aarch64 => patch_aarch64(out, start, target),
        }
    }
}

} // verus!
