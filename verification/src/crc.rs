use vstd::prelude::*;

verus! {

/// One shift step of the reflected CRC-32 used by PNG chunks
/// (polynomial 0xEDB88320).
pub open spec fn crc_step(c: u32) -> u32 {
    if c & 1 == 1 {
        (c >> 1) ^ 0xEDB88320u32
    } else {
        c >> 1
    }
}

/// `n` shift steps in a row.
pub open spec fn crc_steps(c: u32, n: nat) -> u32
    decreases n,
{
    if n == 0 {
        c
    } else {
        crc_steps(crc_step(c), (n - 1) as nat)
    }
}

/// Folding one byte into the running CRC register.
pub open spec fn crc_update(c: u32, b: u8) -> u32 {
    crc_steps(c ^ (b as u32), 8)
}

/// The register after folding in the first `i` bytes of `s`, starting from
/// the all-ones preset.
pub open spec fn crc_acc(s: Seq<u8>, i: int) -> u32
    decreases i,
{
    if i <= 0 {
        0xFFFFFFFFu32
    } else {
        crc_update(crc_acc(s, i - 1), s[i - 1])
    }
}

/// The CRC-32 of a byte sequence, as PNG stores it after each chunk.
pub open spec fn crc32_of(s: Seq<u8>) -> u32 {
    crc_acc(s, s.len() as int) ^ 0xFFFFFFFFu32
}

/// Computes the CRC-32 of `data[start..start + len]`.
pub fn crc32_range(data: &[u8], start: usize, len: usize) -> (r: u32)
    requires
        start + len <= data@.len(),
    ensures
        r == crc32_of(data@.subrange(start as int, start + len)),
{
    let ghost sub = data@.subrange(start as int, start + len);
    let dlen: usize = data.len();
    let mut c: u32 = 0xFFFFFFFFu32;
    let mut i: usize = 0;
    while i < len
        invariant
            i <= len,
            start + len <= dlen == data@.len(),
            sub == data@.subrange(start as int, start + len),
            c == crc_acc(sub, i as int),
        decreases len - i,
    {
        let b = data[start + i];
        assert(b == sub[i as int]);
        let mut x: u32 = c ^ (b as u32);
        let ghost x0 = x;
        let mut k: usize = 0;
        while k < 8
            invariant
                k <= 8,
                crc_steps(x0, 8) == crc_steps(x, (8 - k) as nat),
            decreases 8 - k,
        {
            if x & 1 == 1 {
                x = (x >> 1) ^ 0xEDB88320u32;
            } else {
                x = x >> 1;
            }
            k = k + 1;
        }
        assert(x == crc_steps(x0, 8));
        c = x;
        i = i + 1;
    }
    c ^ 0xFFFFFFFFu32
}

} // verus!
