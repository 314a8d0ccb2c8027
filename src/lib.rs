use vstd::prelude::*;

pub mod error;
pub mod tar;

verus! {

/// Size in bytes of one archive block.
pub const BLOCK_SIZE: usize = 512;

/// Number of zero bytes needed after `n` payload bytes to reach a block boundary.
pub open spec fn padding_len(n: nat) -> nat {
    ((512 - (n % 512)) % 512) as nat
}

/// Content followed by its padding ends on a block boundary, and the padding is
/// shorter than a block.
pub proof fn lemma_padding_aligns(n: nat)
    ensures
        (n + padding_len(n)) % 512 == 0,
        padding_len(n) < 512,
        n % 512 == 0 ==> padding_len(n) == 0,
{
    let r = n % 512;
    let q = n / 512;
    assert(n == 512 * q + r);
    if r == 0 {
        assert(padding_len(n) == 0);
    } else {
        assert(padding_len(n) == 512 - r);
        assert(n + padding_len(n) == 512 * (q + 1));
    }
}

/// Whether a directory entry's own name marks it hidden: it starts with a dot.
pub fn is_hidden(file_name: &[u8]) -> (r: bool)
    ensures
        r == (file_name@.len() > 0 && file_name@[0] == 46),
{
    file_name.len() > 0 && file_name[0] == 46
}

/// Computes `padding_len` for an executable size.
pub fn padding_for(n: u64) -> (r: u64)
    ensures
        r == padding_len(n as nat),
{
    (512 - n % 512) % 512
}

} // verus!
