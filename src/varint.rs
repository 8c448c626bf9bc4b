use vstd::prelude::*;

verus! {

/// Largest value that `k` more 7-bit groups can still carry in a 32-bit integer.
pub open spec fn group_limit(k: nat) -> nat {
    if k == 0 {
        0x1_0000_0000
    } else if k == 1 {
        0x200_0000
    } else if k == 2 {
        0x4_0000
    } else if k == 3 {
        0x800
    } else if k == 4 {
        0x10
    } else {
        0
    }
}

/// Variable-length encoding of `u`: 7 bits per byte, least significant first,
/// the high bit set on every byte but the last.
pub open spec fn varint_bytes(u: nat) -> Seq<u8>
    decreases u,
{
    if u < 128 {
        seq![u as u8]
    } else {
        seq![(u % 128 + 128) as u8] + varint_bytes(u / 128)
    }
}

/// The 32 bits of `x` read as an unsigned number.
pub open spec fn unsigned_bits(x: int) -> nat {
    if x >= 0 {
        x as nat
    } else {
        (x + 0x1_0000_0000) as nat
    }
}

/// A 32-bit unsigned number read as two's complement.
pub open spec fn signed_of(u: nat) -> int {
    if u < 0x8000_0000 {
        u as int
    } else {
        u - 0x1_0000_0000
    }
}

/// Wire form of a signed 32-bit variable-length integer.
pub open spec fn varint_of(x: int) -> Seq<u8> {
    varint_bytes(unsigned_bits(x))
}

/// Reads 7-bit groups from position `pos` of `s`, where `k` groups came before:
/// the value they carry and the position after the last one; `None` when the
/// bytes end before a last group or the value would not fit in 32 bits.
pub open spec fn varint_groups(s: Seq<u8>, pos: int, k: nat) -> Option<(nat, int)>
    decreases 5 - k,
{
    if k >= 5 || pos < 0 || pos >= s.len() {
        None
    } else if s[pos] < 128 {
        if k == 4 && s[pos] >= 16 {
            None
        } else {
            Some((s[pos] as nat, pos + 1))
        }
    } else {
        match varint_groups(s, pos + 1, k + 1) {
            Some((v, e)) => Some(((s[pos] - 128) as nat + 128 * v, e)),
            None => None,
        }
    }
}

/// The signed variable-length integer that starts at `pos`, and the position after it.
pub open spec fn varint_at(s: Seq<u8>, pos: int) -> Option<(int, int)> {
    match varint_groups(s, pos, 0) {
        Some((u, e)) => Some((signed_of(u), e)),
        None => None,
    }
}

/// The bytes from `pos` on are a variable-length integer cut short: every one
/// carries the continuation bit and fewer than five of them are there.
pub open spec fn varint_cut_short(s: Seq<u8>, pos: int) -> bool {
    &&& 0 <= pos <= s.len()
    &&& s.len() - pos < 5
    &&& forall|i: int| pos <= i < s.len() ==> s[i] >= 128
}

/// A value that fits after `k` groups takes at most `5 - k` more bytes.
pub proof fn lemma_varint_bytes_len(u: nat, k: nat)
    requires
        u < group_limit(k),
    ensures
        1 <= varint_bytes(u).len() <= 5 - k,
    decreases u,
{
    if u >= 128 {
        lemma_varint_bytes_len(u / 128, k + 1);
    }
}

/// Reading the encoding of `u` back, with `k` groups before it, gives `u`.
proof fn lemma_varint_groups_of(s: Seq<u8>, pos: int, k: nat, u: nat)
    requires
        0 <= pos,
        u < group_limit(k),
        pos + varint_bytes(u).len() <= s.len(),
        s.subrange(pos, pos + varint_bytes(u).len()) == varint_bytes(u),
    ensures
        varint_groups(s, pos, k) == Some((u, pos + varint_bytes(u).len())),
    decreases u,
{
    let b = varint_bytes(u);
    assert(s[pos] == s.subrange(pos, pos + b.len())[0]);
    if u >= 128 {
        let t = varint_bytes(u / 128);
        assert(s.subrange(pos + 1, pos + 1 + t.len()) =~= s.subrange(pos, pos + b.len()).subrange(1, b.len() as int));
        assert(b.subrange(1, b.len() as int) =~= t);
        lemma_varint_groups_of(s, pos + 1, k + 1, u / 128);
    }
}

/// Decoding a signed integer's encoding gives it back.
pub proof fn lemma_varint_at_of(s: Seq<u8>, pos: int, x: int)
    requires
        -0x8000_0000 <= x < 0x8000_0000,
        0 <= pos,
        pos + varint_of(x).len() <= s.len(),
        s.subrange(pos, pos + varint_of(x).len()) == varint_of(x),
    ensures
        varint_at(s, pos) == Some((x, pos + varint_of(x).len())),
{
    lemma_varint_groups_of(s, pos, 0, unsigned_bits(x));
}

/// Appends the encoding of `u`.
pub fn write_varint_u32(out: &mut Vec<u8>, u: u32)
    ensures
        final(out)@ == old(out)@ + varint_bytes(u as nat),
{
    let mut rest: u32 = u;
    while rest >= 128
        invariant
            old(out)@ + varint_bytes(u as nat) == out@ + varint_bytes(rest as nat),
        decreases rest,
    {
        let byte: u8 = (rest % 128 + 128) as u8;
        let ghost before = out@;
        out.push(byte);
        assert(before + varint_bytes(rest as nat) =~= out@ + varint_bytes((rest / 128) as nat));
        rest = rest / 128;
    }
    out.push(rest as u8);
    assert(out@ =~= old(out)@ + varint_bytes(u as nat));
}

/// Appends the encoding of the signed integer `x`.
pub fn write_varint(out: &mut Vec<u8>, x: i32)
    ensures
        final(out)@ == old(out)@ + varint_of(x as int),
{
    let u: u32 = if x >= 0 {
        x as u32
    } else {
        ((x as i64) + 0x1_0000_0000i64) as u32
    };
    write_varint_u32(out, u);
}

/// Reads 7-bit groups from `pos`, with `k` groups before: see `varint_groups`.
fn read_groups(buf: &Vec<u8>, pos: usize, k: usize) -> (r: Option<(u32, usize)>)
    requires
        k <= 5,
    ensures
        r is None <==> varint_groups(buf@, pos as int, k as nat) is None,
        r matches Some((v, e)) ==> varint_groups(buf@, pos as int, k as nat) == Some((v as nat, e as int))
            && v < group_limit(k as nat),
    decreases 5 - k,
{
    if k >= 5 || pos >= buf.len() {
        return None;
    }
    let b = buf[pos];
    if b < 128 {
        if k == 4 && b >= 16 {
            None
        } else {
            Some((b as u32, pos + 1))
        }
    } else {
        match read_groups(buf, pos + 1, k + 1) {
            Some((v, e)) => {
                let value: u32 = (b - 128) as u32 + 128 * v;
                Some((value, e))
            },
            None => None,
        }
    }
}

/// Reads the signed variable-length integer at `pos`.
pub fn read_varint(buf: &Vec<u8>, pos: usize) -> (r: Option<(i32, usize)>)
    ensures
        r is None <==> varint_at(buf@, pos as int) is None,
        r matches Some((v, e)) ==> varint_at(buf@, pos as int) == Some((v as int, e as int)),
{
    match read_groups(buf, pos, 0) {
        Some((u, e)) => {
            let v: i32 = if u < 0x8000_0000 {
                u as i32
            } else {
                ((u - 0x8000_0000) as i32) + i32::MIN
            };
            Some((v, e))
        },
        None => None,
    }
}

} // verus!
