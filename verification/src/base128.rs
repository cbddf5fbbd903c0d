use vstd::prelude::*;

verus! {

/// Longest variable-length number, in bytes.
pub const MAX_BASE128_LEN: usize = 5;

/// The number that the first `n` bytes from `pos` spell when each byte gives
/// seven bits, most significant group first.
pub open spec fn base128_value(bytes: Seq<u8>, pos: int, n: int) -> int
    decreases n,
{
    if n <= 0 {
        0
    } else {
        base128_value(bytes, pos, n - 1) * 128 + (bytes[pos + n - 1] as int) % 128
    }
}

/// The `n` bytes from `pos` are one variable-length number: between one and
/// five bytes, every byte but the last with its top bit set, no leading zero
/// group, and a value that fits in 32 bits.
pub open spec fn is_base128(bytes: Seq<u8>, pos: int, n: int) -> bool {
    &&& 0 <= pos
    &&& 1 <= n <= MAX_BASE128_LEN
    &&& pos + n <= bytes.len()
    &&& bytes[pos] != 128
    &&& forall|j: int| pos <= j < pos + n - 1 ==> #[trigger] bytes[j] >= 128
    &&& bytes[pos + n - 1] < 128
    &&& base128_value(bytes, pos, n) <= u32::MAX
}

/// A longer run of groups is worth at least 128 times a shorter one.
pub proof fn lemma_base128_value_grows(bytes: Seq<u8>, pos: int, k: int, n: int)
    requires
        0 <= k < n,
    ensures
        base128_value(bytes, pos, n) >= 128 * base128_value(bytes, pos, k),
        base128_value(bytes, pos, k) >= 0,
    decreases n,
{
    lemma_base128_value_nonnegative(bytes, pos, k);
    lemma_base128_value_nonnegative(bytes, pos, n - 1);
    if k < n - 1 {
        lemma_base128_value_grows(bytes, pos, k, n - 1);
    }
}

/// The value of a run of groups is never negative.
pub proof fn lemma_base128_value_nonnegative(bytes: Seq<u8>, pos: int, n: int)
    ensures
        base128_value(bytes, pos, n) >= 0,
    decreases n,
{
    if n > 0 {
        lemma_base128_value_nonnegative(bytes, pos, n - 1);
    }
}

/// At one position at most one length makes a variable-length number: the
/// number ends at the first byte whose top bit is clear.
pub proof fn lemma_base128_length_unique(bytes: Seq<u8>, pos: int, n: int, m: int)
    requires
        is_base128(bytes, pos, n),
        is_base128(bytes, pos, m),
    ensures
        n == m,
{
    if n < m {
        assert(bytes[pos + (n - 1)] >= 128);
    } else if m < n {
        assert(bytes[pos + (m - 1)] >= 128);
    }
}

/// Reads the variable-length number that starts at `pos`. Returns the number
/// and the position behind it, or `None` where no number starts there: the
/// bytes run out, the first group is a leading zero, the value passes 32 bits,
/// or the fifth byte still asks for more.
pub fn read_base128(data: &[u8], pos: usize) -> (found: Option<(u32, usize)>)
    requires
        pos <= data.len(),
    ensures
        match found {
            Some((value, next)) => {
                &&& pos < next <= data.len()
                &&& is_base128(data@, pos as int, next - pos)
                &&& value as int == base128_value(data@, pos as int, next - pos)
            },
            None => forall|n: int| !is_base128(data@, pos as int, n),
        },
{
    let avail: usize = data.len() - pos;
    let mut acc: u32 = 0;
    let mut i: usize = 0;
    while i < MAX_BASE128_LEN
        invariant
            pos <= data.len(),
            avail == data.len() - pos,
            0 <= i <= MAX_BASE128_LEN,
            i <= avail,
            forall|j: int| pos <= j < pos + i ==> #[trigger] data@[j] >= 128,
            acc as int == base128_value(data@, pos as int, i as int),
            i > 0 ==> data@[pos as int] != 128,
        decreases MAX_BASE128_LEN - i,
    {
        if i >= avail {
            proof {
                assert forall|n: int| !is_base128(data@, pos as int, n) by {
                    if is_base128(data@, pos as int, n) {
                        assert(data@[pos + (n - 1)] >= 128);
                    }
                }
            }
            return None;
        }
        let byte: u8 = data[pos + i];
        if i == 0 && byte == 128 {
            return None;
        }
        if acc >= 33554432 {
            proof {
                assert forall|n: int| !is_base128(data@, pos as int, n) by {
                    if is_base128(data@, pos as int, n) {
                        if n <= i {
                            assert(data@[pos + (n - 1)] >= 128);
                        } else {
                            lemma_base128_value_grows(data@, pos as int, i as int, n);
                        }
                    }
                }
            }
            return None;
        }
        acc = acc * 128 + (byte % 128) as u32;
        i = i + 1;
        if byte < 128 {
            return Some((acc, pos + i));
        }
    }
    proof {
        assert forall|n: int| !is_base128(data@, pos as int, n) by {
            if is_base128(data@, pos as int, n) {
                assert(data@[pos + (n - 1)] >= 128);
            }
        }
    }
    None
}

/// How many bytes the variable-length form of `value` takes.
pub open spec fn base128_len(value: u32) -> int {
    if value < 128 {
        1
    } else if value < 16384 {
        2
    } else if value < 2097152 {
        3
    } else if value < 268435456 {
        4
    } else {
        5
    }
}

/// Byte `k` of the variable-length form of `value`, counted from its last
/// byte: seven bits of the value, with the top bit set on all but the last.
pub open spec fn base128_byte(value: u32, k: int) -> u8 {
    if k == 0 {
        (value % 128) as u8
    } else if k == 1 {
        (value / 128 % 128 + 128) as u8
    } else if k == 2 {
        (value / 16384 % 128 + 128) as u8
    } else if k == 3 {
        (value / 2097152 % 128 + 128) as u8
    } else {
        (value / 268435456 + 128) as u8
    }
}

/// The variable-length form of `value`: its seven-bit groups from the most
/// significant one that is needed down to the last.
pub open spec fn base128_encoding(value: u32) -> Seq<u8> {
    Seq::new(
        base128_len(value) as nat,
        |i: int| base128_byte(value, base128_len(value) - 1 - i),
    )
}

/// Appends the variable-length form of `value` to `out`.
pub fn write_base128(value: u32, out: &mut Vec<u8>)
    ensures
        final(out)@ == old(out)@ + base128_encoding(value),
{
    if value >= 268435456 {
        out.push((value / 268435456) as u8 + 128);
    }
    if value >= 2097152 {
        out.push((value / 2097152 % 128) as u8 + 128);
    }
    if value >= 16384 {
        out.push((value / 16384 % 128) as u8 + 128);
    }
    if value >= 128 {
        out.push((value / 128 % 128) as u8 + 128);
    }
    out.push((value % 128) as u8);
    assert(out@ =~= old(out)@ + base128_encoding(value));
}

/// A number that was written is read back. Where the variable-length form of
/// `value` stands in `bytes` at `pos`, whatever comes before and after it,
/// those bytes are a well-formed number worth `value`, and no other length
/// makes a number at `pos`: a reader there finds `value` and nothing else.
pub proof fn lemma_base128_round_trip(bytes: Seq<u8>, pos: int, value: u32)
    requires
        0 <= pos,
        pos + base128_len(value) <= bytes.len(),
        bytes.subrange(pos, pos + base128_len(value)) == base128_encoding(value),
    ensures
        is_base128(bytes, pos, base128_len(value)),
        base128_value(bytes, pos, base128_len(value)) == value,
        forall|m: int| is_base128(bytes, pos, m) ==> m == base128_len(value),
{
    let n = base128_len(value);
    let enc = base128_encoding(value);
    assert forall|j: int| pos <= j < pos + n implies #[trigger] bytes[j] == base128_byte(
        value,
        n - 1 - (j - pos),
    ) by {
        assert(bytes[j] == bytes.subrange(pos, pos + n)[j - pos]);
        assert(enc[j - pos] == base128_byte(value, n - 1 - (j - pos)));
    }
    assert(bytes[pos] == base128_byte(value, n - 1));
    assert(bytes[pos + n - 1] == base128_byte(value, 0));
    reveal_with_fuel(base128_value, 6);
    assert(base128_value(bytes, pos, n) == value);
    assert(is_base128(bytes, pos, n));
    assert forall|m: int| is_base128(bytes, pos, m) implies m == n by {
        lemma_base128_length_unique(bytes, pos, n, m);
    }
}

} // verus!
