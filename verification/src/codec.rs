//! Block codecs: how many bytes a matrix occupies.
use crate::error::VindexError;
use crate::text::{decimal, push_decimal};
use vstd::arithmetic::mul::*;
use vstd::prelude::*;
use vstd::string::*;

verus! {

/// A codec that stores each row of a matrix as whole blocks.
#[derive(Debug, Clone, Copy, PartialEq, Eq)]
pub struct BlockCodec {
    pub label: &'static str,
    /// Elements per block.
    pub block: u64,
    /// Stored bytes per block.
    pub block_bytes: u64,
}

/// The refusal of a row that is not whole blocks.
pub open spec fn ragged_text(operand: Seq<char>, label: Seq<char>, k: int, block: int) -> Seq<char> {
    "`"@ + operand + "`: "@ + label + " stores whole blocks of "@ + decimal(block as nat)
        + " elements, and a row of "@ + decimal(k as nat) + " is not"@
}

/// The refusal of a matrix whose size cannot be counted.
pub open spec fn oversize_text(operand: Seq<char>, label: Seq<char>) -> Seq<char> {
    "`"@ + operand + "`: "@ + label + " bytes do not fit a 64-bit count"@
}

impl BlockCodec {
    /// Bytes of an `[n, k]` matrix: `n` rows of whole blocks.
    pub open spec fn bytes(&self, n: int, k: int) -> int {
        n * (k / self.block as int) * self.block_bytes
    }

    /// What `stored_bytes` answers.
    pub open spec fn priced(&self, n: int, k: int, operand: Seq<char>) -> Result<u64, Seq<char>> {
        if k % self.block as int != 0 {
            Err(ragged_text(operand, self.label@, k, self.block as int))
        } else if self.bytes(n, k) > u64::MAX {
            Err(oversize_text(operand, self.label@))
        } else {
            Ok(self.bytes(n, k) as u64)
        }
    }

    /// Bytes an `[n, k]` matrix occupies, refusing a `k` that is not whole
    /// blocks.
    pub fn stored_bytes(&self, n: usize, k: usize, operand: &str) -> (r: Result<u64, VindexError>)
        requires
            self.block > 0,
        ensures
            match r {
                Ok(b) => self.priced(n as int, k as int, operand@) == Ok::<u64, Seq<char>>(b),
                Err(e) => self.priced(n as int, k as int, operand@) == Err::<u64, Seq<char>>(
                    e.text(),
                ),
            },
    {
        let wide: u64 = k as u64;
        if wide % self.block != 0 {
            let mut m: String = "`".to_owned();
            m.append(operand);
            m.append("`: ");
            m.append(self.label);
            m.append(" stores whole blocks of ");
            push_decimal(&mut m, self.block);
            m.append(" elements, and a row of ");
            push_decimal(&mut m, wide);
            m.append(" is not");
            return Err(VindexError::Parse(m));
        }
        let blocks: u64 = wide / self.block;
        let rows: u64 = n as u64;
        if let Some(all) = rows.checked_mul(blocks) {
            if let Some(total) = all.checked_mul(self.block_bytes) {
                return Ok(total);
            }
        } else {
            proof {
                if self.block_bytes == 0 {
                    lemma_mul_by_zero_is_zero(rows * blocks);
                } else {
                    lemma_mul_increases(self.block_bytes as int, rows * blocks);
                    lemma_mul_is_commutative(self.block_bytes as int, rows * blocks);
                }
            }
            if self.block_bytes == 0 {
                return Ok(0);
            }
        }
        let mut m: String = "`".to_owned();
        m.append(operand);
        m.append("`: ");
        m.append(self.label);
        m.append(" bytes do not fit a 64-bit count");
        Err(VindexError::Parse(m))
    }
}

/// **Every block is stored.** A matrix has a price exactly where its rows are
/// whole blocks and the price can be counted; the price spends the codec's
/// bytes on each block, so that bytes stand to elements as a block's bytes
/// stand to its elements.
pub proof fn law_every_block_is_stored(codec: &BlockCodec, n: int, k: int, operand: Seq<char>)
    requires
        codec.block > 0,
        0 <= n,
        0 <= k,
    ensures
        match codec.priced(n, k, operand) {
            Ok(b) => k % codec.block as int == 0 && b * codec.block == (n * k) * codec.block_bytes,
            Err(_) => k % codec.block as int != 0 || (n * k) * codec.block_bytes > u64::MAX
                * codec.block,
        },
{
    let block = codec.block as int;
    let spent = codec.block_bytes as int;
    let blocks = k / block;
    if k % block == 0 {
        vstd::arithmetic::div_mod::lemma_fundamental_div_mod(k, block);
        let bytes = codec.bytes(n, k);
        assert(bytes == n * blocks * spent);
        assert(bytes * block == (n * k) * spent) by (nonlinear_arith)
            requires
                k == block * blocks,
                bytes == n * blocks * spent,
        ;
        assert(0 <= bytes) by (nonlinear_arith)
            requires
                bytes == n * blocks * spent,
                0 <= n,
                0 <= blocks,
                0 <= spent,
        ;
        if bytes > u64::MAX {
            assert(bytes * block > u64::MAX * block) by (nonlinear_arith)
                requires
                    bytes > u64::MAX,
                    block > 0,
            ;
        }
    }
}

} // verus!
