use vstd::prelude::*;

use crate::instruction::Instruction;

verus! {

/// Why a byte buffer is not a program.
#[derive(Clone, Copy, Debug, PartialEq, Eq, Structural)]
pub enum DecodeError {
    /// The buffer ends inside a field.
    Truncated,
    /// A variant tag names no instruction.
    UnknownTag,
    /// Bytes remain after the last instruction.
    TrailingBytes,
}

/// `256^n`.
pub open spec fn pow256(n: nat) -> nat
    decreases n,
{
    if n == 0 {
        1
    } else {
        256 * pow256((n - 1) as nat)
    }
}

/// The `n` low-order bytes of `v`, least significant first.
pub open spec fn le_bytes(v: nat, n: nat) -> Seq<u8>
    decreases n,
{
    if n == 0 {
        Seq::empty()
    } else {
        seq![(v % 256) as u8] + le_bytes(v / 256, (n - 1) as nat)
    }
}

/// The number whose little-endian bytes are `b`.
pub open spec fn le_value(b: Seq<u8>) -> nat
    decreases b.len(),
{
    if b.len() == 0 {
        0
    } else {
        b[0] as nat + 256 * le_value(b.drop_first())
    }
}

/// Layout of one instruction: a four-byte variant tag followed by its
/// operands, each at its own fixed width, all little-endian.
pub open spec fn encode_instr(i: Instruction) -> Seq<u8> {
    match i {
        Instruction::MOV(a, b) => le_bytes(0, 4) + le_bytes(a as nat, 8) + le_bytes(b as nat, 8),
        Instruction::MOVI(a, b) => le_bytes(1, 4) + le_bytes(a as nat, 8) + le_bytes(b as nat, 8),
        Instruction::PUSH(r) => le_bytes(2, 4) + le_bytes(r as nat, 8),
        Instruction::POP(r) => le_bytes(3, 4) + le_bytes(r as nat, 8),
        Instruction::JMP(t) => le_bytes(4, 4) + le_bytes(t as nat, 8),
        Instruction::OUTPUT(r) => le_bytes(5, 4) + le_bytes(r as nat, 2),
        Instruction::HALT() => le_bytes(6, 4),
    }
}

pub open spec fn encode_list(s: Seq<Instruction>) -> Seq<u8>
    decreases s.len(),
{
    if s.len() == 0 {
        Seq::empty()
    } else {
        encode_instr(s[0]) + encode_list(s.drop_first())
    }
}

/// Layout of a program: an eight-byte instruction count, then each
/// instruction in order.
pub open spec fn encode_program(s: Seq<Instruction>) -> Seq<u8> {
    le_bytes(s.len(), 8) + encode_list(s)
}

/// The unsigned field of `n` bytes at `pos`.
pub open spec fn field(b: Seq<u8>, pos: int, n: nat) -> nat {
    le_value(b.subrange(pos, pos + n))
}

/// Parses one instruction at `pos`, giving it and the position after it.
pub open spec fn decode_instr_at(b: Seq<u8>, pos: int) -> Result<(Instruction, int), DecodeError> {
    if pos + 4 > b.len() {
        Err(DecodeError::Truncated)
    } else {
        let tag = field(b, pos, 4);
        let p = pos + 4;
        if tag == 0 || tag == 1 {
            if p + 16 > b.len() {
                Err(DecodeError::Truncated)
            } else {
                let x = field(b, p, 8) as u64;
                let y = field(b, p + 8, 8) as u64;
                if tag == 0 {
                    Ok((Instruction::MOV(x, y), p + 16))
                } else {
                    Ok((Instruction::MOVI(x, y), p + 16))
                }
            }
        } else if tag == 2 || tag == 3 || tag == 4 {
            if p + 8 > b.len() {
                Err(DecodeError::Truncated)
            } else {
                let x = field(b, p, 8) as u64;
                if tag == 2 {
                    Ok((Instruction::PUSH(x), p + 8))
                } else if tag == 3 {
                    Ok((Instruction::POP(x), p + 8))
                } else {
                    Ok((Instruction::JMP(x), p + 8))
                }
            }
        } else if tag == 5 {
            if p + 2 > b.len() {
                Err(DecodeError::Truncated)
            } else {
                Ok((Instruction::OUTPUT(field(b, p, 2) as u16), p + 2))
            }
        } else if tag == 6 {
            Ok((Instruction::HALT(), p))
        } else {
            Err(DecodeError::UnknownTag)
        }
    }
}

/// `prefix` put in front of the instructions of a parse result.
pub open spec fn prepend(
    prefix: Seq<Instruction>,
    r: Result<(Seq<Instruction>, int), DecodeError>,
) -> Result<(Seq<Instruction>, int), DecodeError> {
    match r {
        Ok((rest, q)) => Ok((prefix + rest, q)),
        Err(e) => Err(e),
    }
}

/// Parses `count` consecutive instructions starting at `pos`.
pub open spec fn decode_list(b: Seq<u8>, pos: int, count: nat) -> Result<
    (Seq<Instruction>, int),
    DecodeError,
>
    decreases count,
{
    if count == 0 {
        Ok((Seq::empty(), pos))
    } else {
        match decode_instr_at(b, pos) {
            Err(e) => Err(e),
            Ok((i, p)) => prepend(seq![i], decode_list(b, p, (count - 1) as nat)),
        }
    }
}

/// Parses a whole program; every byte must be used.
pub open spec fn decode_program(b: Seq<u8>) -> Result<Seq<Instruction>, DecodeError> {
    if b.len() < 8 {
        Err(DecodeError::Truncated)
    } else {
        match decode_list(b, 8, field(b, 0, 8)) {
            Err(e) => Err(e),
            Ok((s, p)) => if p == b.len() {
                Ok(s)
            } else {
                Err(DecodeError::TrailingBytes)
            },
        }
    }
}

proof fn lemma_pow256_values()
    ensures
        pow256(0) == 1,
        pow256(1) == 0x100,
        pow256(2) == 0x1_0000,
        pow256(3) == 0x100_0000,
        pow256(4) == 0x1_0000_0000,
        pow256(5) == 0x100_0000_0000,
        pow256(6) == 0x1_0000_0000_0000,
        pow256(7) == 0x100_0000_0000_0000,
        pow256(8) == 0x1_0000_0000_0000_0000,
{
    reveal_with_fuel(pow256, 9);
}

proof fn lemma_le_bytes_len(v: nat, n: nat)
    ensures
        le_bytes(v, n).len() == n,
    decreases n,
{
    if n > 0 {
        lemma_le_bytes_len(v / 256, (n - 1) as nat);
    }
}

proof fn lemma_le_round_trip(v: nat, n: nat)
    requires
        v < pow256(n),
    ensures
        le_value(le_bytes(v, n)) == v,
    decreases n,
{
    if n > 0 {
        let rest = le_bytes(v / 256, (n - 1) as nat);
        assert(v / 256 < pow256((n - 1) as nat));
        lemma_le_round_trip(v / 256, (n - 1) as nat);
        assert(le_bytes(v, n).drop_first() =~= rest);
    }
}

/// Appends the `n` low-order bytes of `v`, least significant first.
fn write_le(out: &mut Vec<u8>, v: u64, n: usize)
    ensures
        final(out)@ == old(out)@ + le_bytes(v as nat, n as nat),
{
    let mut cur: u64 = v;
    let mut i: usize = 0;
    while i < n
        invariant
            i <= n,
            out@ + le_bytes(cur as nat, (n - i) as nat) == old(out)@ + le_bytes(v as nat, n as nat),
        decreases n - i,
    {
        let ghost before = out@;
        out.push((cur % 256) as u8);
        assert(before + le_bytes(cur as nat, (n - i) as nat) =~= out@ + le_bytes(
            (cur / 256) as nat,
            (n - i - 1) as nat,
        ));
        cur = cur / 256;
        i = i + 1;
    }
    assert(out@ + le_bytes(cur as nat, 0) =~= out@);
}

/// Reads the unsigned field of `n` bytes at `pos`.
fn read_le(b: &Vec<u8>, pos: usize, n: usize) -> (r: u64)
    requires
        n <= 8,
        pos + n <= b@.len(),
    ensures
        r as nat == field(b@, pos as int, n as nat),
        (r as nat) < pow256(n as nat),
{
    proof {
        lemma_pow256_values();
    }
    let len = b.len();
    let mut acc: u64 = 0;
    let mut k: usize = n;
    while k > 0
        invariant
            len == b@.len(),
            k <= n,
            n <= 8,
            pos + n <= b@.len(),
            acc as nat == le_value(b@.subrange(pos + k, pos + n)),
            (acc as nat) < pow256((n - k) as nat),
            pow256(8) == 0x1_0000_0000_0000_0000,
        decreases k,
    {
        k = k - 1;
        let byte = b[pos + k];
        let ghost m = (n - k - 1) as nat;
        assert(b@.subrange(pos + k, pos + n).drop_first() =~= b@.subrange(pos + k + 1, pos + n));
        assert(pow256(m + 1) == 256 * pow256(m));
        assert(pow256(m + 1) <= pow256(8)) by {
            lemma_pow256_mono(m + 1, 8);
        }
        assert(acc * 256 + byte < pow256(m + 1)) by (nonlinear_arith)
            requires
                acc < pow256(m),
                byte < 256,
                pow256(m + 1) == 256 * pow256(m),
        ;
        acc = acc * 256 + byte as u64;
    }
    assert(b@.subrange(pos as int, pos + n) == b@.subrange(pos + k, pos + n));
    acc
}

proof fn lemma_pow256_mono(a: nat, b: nat)
    requires
        a <= b,
    ensures
        pow256(a) <= pow256(b),
    decreases b,
{
    if a < b {
        lemma_pow256_mono(a, (b - 1) as nat);
    }
}

proof fn lemma_encode_list_push(a: Seq<Instruction>, x: Instruction)
    ensures
        encode_list(a.push(x)) == encode_list(a) + encode_instr(x),
    decreases a.len(),
{
    if a.len() == 0 {
        assert(a.push(x).drop_first() =~= Seq::<Instruction>::empty());
        assert(a.push(x)[0] == x);
        assert(encode_list(Seq::<Instruction>::empty()) == Seq::<u8>::empty());
        assert(encode_list(a) == Seq::<u8>::empty());
        assert(encode_list(a.push(x)) =~= encode_list(a) + encode_instr(x));
    } else {
        assert(a.push(x).drop_first() =~= a.drop_first().push(x));
        assert(a.push(x)[0] == a[0]);
        lemma_encode_list_push(a.drop_first(), x);
        assert(encode_list(a.push(x)) =~= encode_list(a) + encode_instr(x));
    }
}

proof fn lemma_prepend_push(
    a: Seq<Instruction>,
    i: Instruction,
    r: Result<(Seq<Instruction>, int), DecodeError>,
)
    ensures
        prepend(a, prepend(seq![i], r)) == prepend(a.push(i), r),
{
    match r {
        Ok((rest, q)) => {
            assert(a + (seq![i] + rest) =~= a.push(i) + rest);
        },
        Err(_) => {},
    }
}

/// Appends the layout of one instruction.
fn write_instr(out: &mut Vec<u8>, i: Instruction)
    ensures
        final(out)@ == old(out)@ + encode_instr(i),
{
    let ghost start = out@;
    match i {
        Instruction::MOV(a, b) => {
            write_le(out, 0, 4);
            write_le(out, a, 8);
            write_le(out, b, 8);
        },
        Instruction::MOVI(a, b) => {
            write_le(out, 1, 4);
            write_le(out, a, 8);
            write_le(out, b, 8);
        },
        Instruction::PUSH(r) => {
            write_le(out, 2, 4);
            write_le(out, r, 8);
        },
        Instruction::POP(r) => {
            write_le(out, 3, 4);
            write_le(out, r, 8);
        },
        Instruction::JMP(t) => {
            write_le(out, 4, 4);
            write_le(out, t, 8);
        },
        Instruction::OUTPUT(r) => {
            write_le(out, 5, 4);
            write_le(out, r as u64, 2);
        },
        Instruction::HALT() => {
            write_le(out, 6, 4);
        },
    }
    assert(out@ =~= start + encode_instr(i));
}

/// Serialises a program: its instruction count, then each instruction.
pub fn encode(program: &Vec<Instruction>) -> (r: Vec<u8>)
    ensures
        r@ == encode_program(program@),
        decode_program(r@) == Ok::<Seq<Instruction>, DecodeError>(program@),
{
    let mut out: Vec<u8> = Vec::new();
    write_le(&mut out, program.len() as u64, 8);
    let mut k: usize = 0;
    while k < program.len()
        invariant
            k <= program@.len(),
            out@ == le_bytes(program@.len(), 8) + encode_list(program@.take(k as int)),
        decreases program@.len() - k,
    {
        proof {
            lemma_encode_list_push(program@.take(k as int), program@[k as int]);
            assert(program@.take(k + 1) =~= program@.take(k as int).push(program@[k as int]));
        }
        write_instr(&mut out, program[k]);
        k = k + 1;
    }
    assert(program@.take(k as int) =~= program@);
    proof {
        lemma_round_trip(program@);
    }
    out
}

/// Parses one instruction at `pos`.
fn decode_instr(b: &Vec<u8>, pos: usize) -> (r: Result<(Instruction, usize), DecodeError>)
    requires
        pos <= b@.len(),
    ensures
        match r {
            Ok((i, p)) => decode_instr_at(b@, pos as int) == Ok::<(Instruction, int), DecodeError>(
                (i, p as int),
            ) && p <= b@.len(),
            Err(e) => decode_instr_at(b@, pos as int) == Err::<(Instruction, int), DecodeError>(e),
        },
{
    let len = b.len();
    if len - pos < 4 {
        return Err(DecodeError::Truncated);
    }
    let tag = read_le(b, pos, 4);
    let p = pos + 4;
    if tag == 0 || tag == 1 {
        if len - p < 16 {
            return Err(DecodeError::Truncated);
        }
        let x = read_le(b, p, 8);
        let y = read_le(b, p + 8, 8);
        if tag == 0 {
            Ok((Instruction::MOV(x, y), p + 16))
        } else {
            Ok((Instruction::MOVI(x, y), p + 16))
        }
    } else if tag == 2 || tag == 3 || tag == 4 {
        if len - p < 8 {
            return Err(DecodeError::Truncated);
        }
        let x = read_le(b, p, 8);
        if tag == 2 {
            Ok((Instruction::PUSH(x), p + 8))
        } else if tag == 3 {
            Ok((Instruction::POP(x), p + 8))
        } else {
            Ok((Instruction::JMP(x), p + 8))
        }
    } else if tag == 5 {
        if len - p < 2 {
            return Err(DecodeError::Truncated);
        }
        let x = read_le(b, p, 2);
        Ok((Instruction::OUTPUT(x as u16), p + 2))
    } else if tag == 6 {
        Ok((Instruction::HALT(), p))
    } else {
        Err(DecodeError::UnknownTag)
    }
}

/// Parses a program. Nothing is returned unless every byte belongs to
/// a well-formed instruction.
pub fn decode(bytes: &Vec<u8>) -> (r: Result<Vec<Instruction>, DecodeError>)
    ensures
        match r {
            Ok(p) => decode_program(bytes@) == Ok::<Seq<Instruction>, DecodeError>(p@),
            Err(e) => decode_program(bytes@) == Err::<Seq<Instruction>, DecodeError>(e),
        },
        r is Ok ==> encode_program(r->Ok_0@) == bytes@,
{
    let len = bytes.len();
    if len < 8 {
        return Err(DecodeError::Truncated);
    }
    let count = read_le(bytes, 0, 8);
    let mut program: Vec<Instruction> = Vec::new();
    let mut pos: usize = 8;
    let mut k: u64 = 0;
    while k < count
        invariant
            len == bytes@.len(),
            pos <= len,
            k <= count,
            count as nat == field(bytes@, 0, 8),
            decode_list(bytes@, 8, count as nat) == prepend(
                program@,
                decode_list(bytes@, pos as int, (count - k) as nat),
            ),
        decreases count - k,
    {
        match decode_instr(bytes, pos) {
            Err(e) => {
                return Err(e);
            },
            Ok((i, p)) => {
                proof {
                    lemma_prepend_push(
                        program@,
                        i,
                        decode_list(bytes@, p as int, (count - k - 1) as nat),
                    );
                }
                program.push(i);
                pos = p;
                k = k + 1;
            },
        }
    }
    assert(program@ + Seq::<Instruction>::empty() =~= program@);
    if pos == len {
        proof {
            lemma_decode_canonical(bytes@);
        }
        Ok(program)
    } else {
        Err(DecodeError::TrailingBytes)
    }
}

proof fn lemma_read_back(pre: Seq<u8>, v: nat, n: nat, post: Seq<u8>)
    requires
        v < pow256(n),
    ensures
        field(pre + le_bytes(v, n) + post, pre.len() as int, n) == v,
{
    lemma_le_bytes_len(v, n);
    lemma_le_round_trip(v, n);
    let b = pre + le_bytes(v, n) + post;
    assert(b.subrange(pre.len() as int, pre.len() + n as int) =~= le_bytes(v, n));
}

proof fn lemma_decode_instr(i: Instruction, pre: Seq<u8>, post: Seq<u8>)
    ensures
        decode_instr_at(pre + encode_instr(i) + post, pre.len() as int) == Ok::<
            (Instruction, int),
            DecodeError,
        >((i, pre.len() + encode_instr(i).len() as int)),
{
    lemma_pow256_values();
    let b = pre + encode_instr(i) + post;
    match i {
        Instruction::MOV(x, y) | Instruction::MOVI(x, y) => {
            let tag: nat = if i is MOV { 0 } else { 1 };
            let (t, a, c) = (le_bytes(tag, 4), le_bytes(x as nat, 8), le_bytes(y as nat, 8));
            lemma_le_bytes_len(tag, 4);
            lemma_le_bytes_len(x as nat, 8);
            lemma_le_bytes_len(y as nat, 8);
            assert(b =~= pre + t + (a + c + post));
            lemma_read_back(pre, tag, 4, a + c + post);
            assert(b =~= (pre + t) + a + (c + post));
            lemma_read_back(pre + t, x as nat, 8, c + post);
            assert(b =~= (pre + t + a) + c + post);
            lemma_read_back(pre + t + a, y as nat, 8, post);
        },
        Instruction::PUSH(x) | Instruction::POP(x) | Instruction::JMP(x) => {
            let tag: nat = if i is PUSH { 2 } else if i is POP { 3 } else { 4 };
            let (t, a) = (le_bytes(tag, 4), le_bytes(x as nat, 8));
            lemma_le_bytes_len(tag, 4);
            lemma_le_bytes_len(x as nat, 8);
            assert(b =~= pre + t + (a + post));
            lemma_read_back(pre, tag, 4, a + post);
            assert(b =~= (pre + t) + a + post);
            lemma_read_back(pre + t, x as nat, 8, post);
        },
        Instruction::OUTPUT(x) => {
            let (t, a) = (le_bytes(5, 4), le_bytes(x as nat, 2));
            lemma_le_bytes_len(5, 4);
            lemma_le_bytes_len(x as nat, 2);
            assert(b =~= pre + t + (a + post));
            lemma_read_back(pre, 5, 4, a + post);
            assert(b =~= (pre + t) + a + post);
            lemma_read_back(pre + t, x as nat, 2, post);
        },
        Instruction::HALT() => {
            lemma_le_bytes_len(6, 4);
            lemma_read_back(pre, 6, 4, post);
        },
    }
}

proof fn lemma_decode_list(s: Seq<Instruction>, pre: Seq<u8>, post: Seq<u8>)
    ensures
        decode_list(pre + encode_list(s) + post, pre.len() as int, s.len()) == Ok::<
            (Seq<Instruction>, int),
            DecodeError,
        >((s, pre.len() + encode_list(s).len() as int)),
    decreases s.len(),
{
    if s.len() == 0 {
        assert(s =~= Seq::<Instruction>::empty());
    } else {
        let e = encode_instr(s[0]);
        let rest = s.drop_first();
        let b = pre + encode_list(s) + post;
        assert(b =~= pre + e + (encode_list(rest) + post));
        lemma_decode_instr(s[0], pre, encode_list(rest) + post);
        assert(b =~= (pre + e) + encode_list(rest) + post);
        lemma_decode_list(rest, pre + e, post);
        assert(seq![s[0]] + rest =~= s);
    }
}

/// Decoding the encoding of any program gives that program back.
pub proof fn lemma_round_trip(s: Seq<Instruction>)
    requires
        s.len() <= u64::MAX,
    ensures
        decode_program(encode_program(s)) == Ok::<Seq<Instruction>, DecodeError>(s),
{
    lemma_pow256_values();
    let h = le_bytes(s.len(), 8);
    let b = encode_program(s);
    lemma_le_bytes_len(s.len(), 8);
    assert(b =~= Seq::<u8>::empty() + h + encode_list(s));
    lemma_read_back(Seq::<u8>::empty(), s.len(), 8, encode_list(s));
    assert(b =~= h + encode_list(s) + Seq::<u8>::empty());
    lemma_decode_list(s, h, Seq::<u8>::empty());
}

proof fn lemma_le_value_bound(b: Seq<u8>)
    ensures
        le_value(b) < pow256(b.len()),
    decreases b.len(),
{
    if b.len() > 0 {
        lemma_le_value_bound(b.drop_first());
        let r = le_value(b.drop_first());
        let p = pow256(b.drop_first().len());
        assert(b[0] as nat + 256 * r < 256 * p) by (nonlinear_arith)
            requires
                r < p,
                b[0] < 256,
        ;
    }
}

proof fn lemma_le_canonical(b: Seq<u8>)
    ensures
        le_bytes(le_value(b), b.len()) == b,
    decreases b.len(),
{
    if b.len() > 0 {
        let v = le_value(b);
        let rest = b.drop_first();
        assert(v % 256 == b[0] as nat);
        assert(v / 256 == le_value(rest));
        lemma_le_canonical(rest);
        assert(le_bytes(v, b.len()) =~= b);
    }
}

/// `field` read back as the bytes it came from.
proof fn lemma_field_canonical(b: Seq<u8>, pos: int, n: nat)
    requires
        0 <= pos,
        pos + n <= b.len(),
    ensures
        le_bytes(field(b, pos, n), n) == b.subrange(pos, pos + n),
        field(b, pos, n) < pow256(n),
{
    lemma_le_canonical(b.subrange(pos, pos + n));
    lemma_le_value_bound(b.subrange(pos, pos + n));
}

proof fn lemma_decode_instr_canonical(b: Seq<u8>, pos: int)
    requires
        0 <= pos <= b.len(),
        decode_instr_at(b, pos) is Ok,
    ensures
        pos < decode_instr_at(b, pos)->Ok_0.1 <= b.len(),
        b.subrange(pos, decode_instr_at(b, pos)->Ok_0.1) == encode_instr(
            decode_instr_at(b, pos)->Ok_0.0,
        ),
{
    lemma_pow256_values();
    let (i, q) = decode_instr_at(b, pos)->Ok_0;
    let p = pos + 4;
    lemma_field_canonical(b, pos, 4);
    let tag = field(b, pos, 4);
    let t = b.subrange(pos, p);
    match i {
        Instruction::MOV(x, y) | Instruction::MOVI(x, y) => {
            lemma_field_canonical(b, p, 8);
            lemma_field_canonical(b, p + 8, 8);
            assert(b.subrange(pos, q) =~= t + b.subrange(p, p + 8) + b.subrange(p + 8, q));
        },
        Instruction::PUSH(x) | Instruction::POP(x) | Instruction::JMP(x) => {
            lemma_field_canonical(b, p, 8);
            assert(b.subrange(pos, q) =~= t + b.subrange(p, q));
        },
        Instruction::OUTPUT(x) => {
            lemma_field_canonical(b, p, 2);
            assert(b.subrange(pos, q) =~= t + b.subrange(p, q));
        },
        Instruction::HALT() => {
            assert(b.subrange(pos, q) =~= t);
        },
    }
}

proof fn lemma_decode_list_canonical(b: Seq<u8>, pos: int, count: nat)
    requires
        0 <= pos <= b.len(),
        decode_list(b, pos, count) is Ok,
    ensures
        pos <= decode_list(b, pos, count)->Ok_0.1 <= b.len(),
        decode_list(b, pos, count)->Ok_0.0.len() == count,
        b.subrange(pos, decode_list(b, pos, count)->Ok_0.1) == encode_list(
            decode_list(b, pos, count)->Ok_0.0,
        ),
    decreases count,
{
    if count == 0 {
        assert(b.subrange(pos, pos) =~= Seq::<u8>::empty());
    } else {
        lemma_decode_instr_canonical(b, pos);
        let (i, p) = decode_instr_at(b, pos)->Ok_0;
        lemma_decode_list_canonical(b, p, (count - 1) as nat);
        let (rest, q) = decode_list(b, p, (count - 1) as nat)->Ok_0;
        let s = seq![i] + rest;
        assert(s[0] == i);
        assert(s.drop_first() =~= rest);
        assert(b.subrange(pos, q) =~= b.subrange(pos, p) + b.subrange(p, q));
    }
}

/// A buffer that decodes to a program is exactly that program's encoding,
/// so no other bytes are accepted for it.
pub proof fn lemma_decode_canonical(b: Seq<u8>)
    requires
        decode_program(b) is Ok,
    ensures
        encode_program(decode_program(b)->Ok_0) == b,
{
    lemma_pow256_values();
    let count = field(b, 0, 8);
    lemma_field_canonical(b, 0, 8);
    lemma_decode_list_canonical(b, 8, count);
    assert(b =~= b.subrange(0, 8) + b.subrange(8, b.len() as int));
}

} // verus!
