//! What an NVFP4 pack stores.
//!
//! Sixteen neighbouring elements of a row share one scale. A group stores
//! eight bytes of codes and one byte of scale, and the tensor one four-byte
//! scale over all of them.
use crate::error::VindexError;
use crate::text::push_decimal;
use vstd::prelude::*;
use vstd::string::*;

verus! {

/// The encoding name of an NVFP4 pack.
pub const DTYPE_NVFP4: &'static str = "NVFP4";

/// Elements that share a scale.
pub const GROUP: usize = 16;

/// Bytes one group stores: its codes and its scale.
pub const GROUP_BYTES: usize = 9;

/// Bytes of the tensor's own scale.
pub const TENSOR_SCALE_BYTES: usize = 4;

/// How a tensor lies in a pack.
#[derive(Debug, Clone, Copy, PartialEq, Eq, Structural)]
pub struct PackLayout {
    /// Elements of a row.
    pub k: usize,
    /// Rows.
    pub n: usize,
    /// Bytes stored.
    pub total_len: usize,
}

/// Bytes a pack of `n` rows of `k` elements stores.
pub open spec fn packed_bytes(n: int, k: int) -> int {
    n * (k / GROUP as int) * GROUP_BYTES + TENSOR_SCALE_BYTES
}

/// Whether a pack can hold a tensor of this shape.
pub open spec fn packable(shape: Seq<usize>) -> bool {
    &&& shape.len() == 2
    &&& shape[1] % GROUP == 0
    &&& packed_bytes(shape[0] as int, shape[1] as int) <= usize::MAX
}

/// Why a pack cannot hold a tensor.
pub open spec fn unpackable_text(shape: Seq<usize>, tensor: Seq<char>) -> Seq<char> {
    if shape.len() != 2 {
        "tensor `"@ + tensor + "`: an NVFP4 pack holds matrices, and this tensor has "@
            + crate::text::decimal(shape.len()) + " dimensions"@
    } else if shape[1] % GROUP != 0 {
        "tensor `"@ + tensor + "`: a row of "@ + crate::text::decimal(shape[1] as nat)
            + " elements is not a whole number of 16-element groups"@
    } else {
        "tensor `"@ + tensor + "`: the pack is larger than this machine can address"@
    }
}

impl PackLayout {
    /// How a tensor of this shape lies in a pack, or why it cannot.
    pub fn derive(shape: &[usize], tensor: &str) -> (r: Result<PackLayout, VindexError>)
        ensures
            r is Ok <==> packable(shape@),
            r matches Ok(l) ==> l.n == shape@[0] && l.k == shape@[1] && l.total_len == packed_bytes(
                shape@[0] as int,
                shape@[1] as int,
            ),
            r matches Err(e) ==> e.text() == unpackable_text(shape@, tensor@),
            r matches Ok(l) ==> shape@ == seq![l.n, l.k] && l.k % 16 == 0 && 16 * (l.total_len - 4)
                == 9 * (l.n * l.k),
            r is Err ==> shape@.len() != 2 || shape@[1] % 16 != 0 || 9 * (shape@[0] * shape@[1])
                + 64 > 16 * usize::MAX,
    {
        proof {
            if shape@.len() == 2 {
                lemma_packed_bytes(shape@[0] as int, shape@[1] as int);
            }
        }
        let mut s: String = "tensor `".to_owned();
        s.append(tensor);
        let rank: usize = shape.len();
        if rank != 2 {
            s.append("`: an NVFP4 pack holds matrices, and this tensor has ");
            push_decimal(&mut s, rank as u64);
            s.append(" dimensions");
            return Err(VindexError::Parse(s));
        }
        let n: usize = shape[0];
        let k: usize = shape[1];
        if k % GROUP != 0 {
            s.append("`: a row of ");
            push_decimal(&mut s, k as u64);
            s.append(" elements is not a whole number of 16-element groups");
            return Err(VindexError::Parse(s));
        }
        let groups: usize = k / GROUP;
        let ghost exact = n as int * groups as int;
        let total: Option<usize> = match n.checked_mul(groups) {
            Some(all) => match all.checked_mul(GROUP_BYTES) {
                Some(bytes) => bytes.checked_add(TENSOR_SCALE_BYTES),
                None => None,
            },
            None => None,
        };
        assert(packed_bytes(n as int, k as int) == exact * 9 + 4);
        assert(exact >= 0) by (nonlinear_arith)
            requires
                exact == n as int * groups as int,
        ;
        match total {
            Some(total_len) => {
                assert(shape@ =~= seq![n, k]);
                Ok(PackLayout { k, n, total_len })
            },
            None => {
                s.append("`: the pack is larger than this machine can address");
                Err(VindexError::Parse(s))
            },
        }
    }
}

proof fn lemma_packed_bytes(n: int, k: int)
    requires
        0 <= n,
        0 <= k,
    ensures
        k % 16 == 0 ==> 16 * (packed_bytes(n, k) - 4) == 9 * (n * k),
{
    let groups = k / 16;
    if k % 16 == 0 {
        assert(k == 16 * groups);
        assert(16 * (n * groups * 9) == 9 * (n * k)) by (nonlinear_arith)
            requires
                k == 16 * groups,
        ;
    }
}

/// **Every element is stored.** A pack of `n` rows of `k` elements, `k` a
/// whole number of groups of sixteen, spends half a byte of code on each
/// element, a byte of scale on every sixteen, and four bytes on the tensor.
pub proof fn law_every_element_is_stored(n: int, k: int)
    requires
        0 <= n,
        0 <= k,
        k % 16 == 0,
    ensures
        2 * (packed_bytes(n, k) - 4) == n * k + 2 * (n * (k / 16)),
        16 * (packed_bytes(n, k) - 4) == 9 * (n * k),
{
    lemma_packed_bytes(n, k);
    let groups = k / 16;
    assert(n * k == 16 * (n * groups)) by (nonlinear_arith)
        requires
            k == 16 * groups,
    ;
}

/// **A longer tensor costs what its parts cost**, less the scale they share:
/// putting rows under rows, or row ends behind rows, adds what is stored of
/// each.
pub proof fn law_parts_add_up(n: int, m: int, k: int, j: int)
    requires
        0 <= n,
        0 <= m,
        0 <= k,
        0 <= j,
        k % 16 == 0,
        j % 16 == 0,
    ensures
        packed_bytes(n + m, k) + 4 == packed_bytes(n, k) + packed_bytes(m, k),
        packed_bytes(n, k + j) + 4 == packed_bytes(n, k) + packed_bytes(n, j),
        packed_bytes(0, k) == 4,
        packed_bytes(n, 0) == 4,
        packed_bytes(1, 16) == 13,
{
    lemma_packed_bytes(n + m, k);
    lemma_packed_bytes(n, k);
    lemma_packed_bytes(m, k);
    lemma_packed_bytes(n, k + j);
    lemma_packed_bytes(n, j);
    lemma_packed_bytes(0, k);
    lemma_packed_bytes(n, 0);
    lemma_packed_bytes(1, 16);
    assert((n + m) * k == n * k + m * k) by (nonlinear_arith);
    assert(n * (k + j) == n * k + n * j) by (nonlinear_arith);
    assert(0 * k == 0 && n * 0 == 0) by (nonlinear_arith);
}

/// **What a pack can hold**: matrices whose rows are whole groups of sixteen,
/// as far as the machine can address what they store.
pub proof fn law_a_pack_holds_whole_groups(shape: Seq<usize>)
    ensures
        packable(shape) ==> shape.len() == 2 && shape[1] % 16 == 0,
        shape.len() == 2 && shape[1] % 16 == 0 && 9 * (shape[0] * shape[1]) + 64 <= 16 * usize::MAX
            ==> packable(shape),
{
    if shape.len() == 2 {
        lemma_packed_bytes(shape[0] as int, shape[1] as int);
    }
}

} // verus!
