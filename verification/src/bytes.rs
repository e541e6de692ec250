//! Little-endian numbers in a byte sequence.
use vstd::arithmetic::power;
use vstd::prelude::*;

verus! {

/// The `width` low bytes of a number, the lowest first.
pub open spec fn le_bytes(value: int, width: nat) -> Seq<u8>
    decreases width,
{
    if width == 0 {
        Seq::empty()
    } else {
        seq![(value % 256) as u8] + le_bytes(value / 256, (width - 1) as nat)
    }
}

/// The number that bytes stand for, the lowest first.
pub open spec fn le_value(bytes: Seq<u8>) -> int
    decreases bytes.len(),
{
    if bytes.len() == 0 {
        0
    } else {
        bytes[0] + 256 * le_value(bytes.drop_first())
    }
}

/// The bytes of `buf` with those from `offset` on replaced.
pub open spec fn put(buf: Seq<u8>, offset: int, bytes: Seq<u8>) -> Seq<u8> {
    Seq::new(
        buf.len(),
        |i: int|
            if offset <= i < offset + bytes.len() {
                bytes[i - offset]
            } else {
                buf[i]
            },
    )
}

/// The number of so many bytes at `offset`.
pub open spec fn read(buf: Seq<u8>, offset: int, width: int) -> int {
    le_value(buf.subrange(offset, offset + width))
}

/// A number has as many bytes as asked for.
pub broadcast proof fn le_bytes_len(value: int, width: nat)
    ensures
        #[trigger] le_bytes(value, width).len() == width,
    decreases width,
{
    if width > 0 {
        le_bytes_len(value / 256, (width - 1) as nat);
    }
}

/// The bytes of a number stand for its residue.
pub proof fn le_bytes_value(value: int, width: nat)
    requires
        0 <= value,
    ensures
        le_value(le_bytes(value, width)) == value % power::pow(256, width),
        power::pow(256, width) > 0,
    decreases width,
{
    reveal(power::pow);
    power::lemma_pow_positive(256, width);
    if width > 0 {
        let w = (width - 1) as nat;
        le_bytes_value(value / 256, w);
        let all = le_bytes(value, width);
        assert(all.drop_first() =~= le_bytes(value / 256, w));
        let p = power::pow(256, w);
        let q = value / 256;
        assert(value % (256 * p) == value % 256 + 256 * (q % p)) by {
            vstd::arithmetic::div_mod::lemma_mod_breakdown(value, 256, p);
        }
        assert(power::pow(256, width) == 256 * p);
    } else {
        assert(value % 1 == 0);
    }
}

/// A number that fits in the bytes is read back from where it was put.
pub proof fn put_then_read(buf: Seq<u8>, offset: int, value: int, width: nat)
    requires
        0 <= offset,
        offset + width <= buf.len(),
        0 <= value < power::pow(256, width),
    ensures
        read(put(buf, offset, le_bytes(value, width)), offset, width as int) == value,
{
    le_bytes_len(value, width);
    le_bytes_value(value, width);
    let after = put(buf, offset, le_bytes(value, width));
    assert(after.subrange(offset, offset + width) =~= le_bytes(value, width));
    vstd::arithmetic::div_mod::lemma_small_mod(value as nat, power::pow(256, width) as nat);
}

/// What lies beside the replaced bytes stays as it is.
pub proof fn put_keeps_rest(buf: Seq<u8>, offset: int, bytes: Seq<u8>, at: int, width: int)
    requires
        0 <= at,
        0 <= width,
        at + width <= buf.len(),
        at + width <= offset || offset + bytes.len() <= at,
    ensures
        read(put(buf, offset, bytes), at, width) == read(buf, at, width),
{
    assert(put(buf, offset, bytes).subrange(at, at + width) =~= buf.subrange(at, at + width));
}

/// Writes the `width` low bytes of a number, the lowest first.
pub fn write_le(buf: &mut [u8], offset: usize, value: u64, width: usize)
    requires
        offset + width <= old(buf)@.len(),
    ensures
        final(buf)@ == put(old(buf)@, offset as int, le_bytes(value as int, width as nat)),
{
    let ghost before = buf@;
    let ghost all = le_bytes(value as int, width as nat);
    proof {
        le_bytes_len(value as int, width as nat);
        assert(all.skip(0) =~= all);
    }
    let end = buf.len();
    let mut rest: u64 = value;
    let mut k: usize = 0;
    while k < width
        invariant
            k <= width,
            offset + width <= end == buf@.len(),
            buf@.len() == before.len(),
            all.len() == width,
            all.skip(k as int) == le_bytes(rest as int, (width - k) as nat),
            forall|i: int|
                0 <= i < buf@.len() ==> #[trigger] buf@[i] == (if offset <= i < offset + k {
                    all[i - offset]
                } else {
                    before[i]
                }),
        decreases width - k,
    {
        assert(all[k as int] == all.skip(k as int)[0]);
        assert(all.skip(k + 1) =~= all.skip(k as int).drop_first());
        assert(le_bytes(rest as int, (width - k) as nat).drop_first() =~= le_bytes(
            rest as int / 256,
            (width - k - 1) as nat,
        ));
        buf[offset + k] = (rest % 256) as u8;
        rest = rest / 256;
        k += 1;
    }
    assert(buf@ =~= put(before, offset as int, all));
}

/// Appends the `width` low bytes of a number, the lowest first.
pub fn push_le(out: &mut Vec<u8>, value: u64, width: usize)
    ensures
        final(out)@ == old(out)@ + le_bytes(value as int, width as nat),
{
    let ghost before = out@;
    let ghost all = le_bytes(value as int, width as nat);
    proof {
        le_bytes_len(value as int, width as nat);
        assert(all.skip(0) =~= all);
        assert(before + all.take(0) =~= before);
    }
    let mut rest: u64 = value;
    let mut k: usize = 0;
    while k < width
        invariant
            k <= width,
            all.len() == width,
            all.skip(k as int) == le_bytes(rest as int, (width - k) as nat),
            out@ == before + all.take(k as int),
        decreases width - k,
    {
        assert(all[k as int] == all.skip(k as int)[0]);
        assert(all.skip(k + 1) =~= all.skip(k as int).drop_first());
        assert(le_bytes(rest as int, (width - k) as nat).drop_first() =~= le_bytes(
            rest as int / 256,
            (width - k - 1) as nat,
        ));
        out.push((rest % 256) as u8);
        assert(out@ =~= before + all.take(k + 1));
        rest = rest / 256;
        k += 1;
    }
    assert(all.take(width as int) =~= all);
}

/// Replaces the bytes from `offset` on by the first `n` bytes of `data`.
pub fn copy_at(buf: &mut [u8], offset: usize, data: &[u8], n: usize)
    requires
        n <= data@.len(),
        offset + n <= old(buf)@.len(),
    ensures
        final(buf)@ == put(old(buf)@, offset as int, data@.take(n as int)),
{
    let ghost before = buf@;
    let end = buf.len();
    let mut k: usize = 0;
    while k < n
        invariant
            k <= n <= data@.len(),
            offset + n <= end == buf@.len(),
            buf@.len() == before.len(),
            forall|i: int|
                0 <= i < buf@.len() ==> #[trigger] buf@[i] == (if offset <= i < offset + k {
                    data@[i - offset]
                } else {
                    before[i]
                }),
        decreases n - k,
    {
        buf[offset + k] = data[k];
        k += 1;
    }
    assert(buf@ =~= put(before, offset as int, data@.take(n as int)));
}

} // verus!
