//! How a tensor is framed for a K-quant encoder that lies outside this crate.
//!
//! Blocks are framed along the row, so a row that is not a whole number of
//! blocks has no encoding. What the encoder reports to have written is held
//! to the same geometry the planner reserved.
use crate::error::VindexError;
use crate::text::{decimal, push_decimal};
use vstd::prelude::*;
use vstd::string::*;

verus! {

/// A K-quant block format.
#[derive(Debug, Clone, Copy, PartialEq, Eq)]
pub struct KQuant {
    pub name: &'static str,
    /// Elements that share a scale.
    pub elements_per_block: usize,
    /// Bytes one block stores.
    pub bytes_per_block: usize,
    /// The format's number in ggml.
    pub ggml_type: u32,
}

/// The geometry of one encode.
#[derive(Debug, Clone, Copy, PartialEq, Eq, Structural)]
pub struct Framing {
    pub rows: usize,
    /// Bytes the encoder must write.
    pub bytes: usize,
}

/// Bytes this many values store.
pub open spec fn encoded_bytes(k: KQuant, values: int) -> int {
    values / (k.elements_per_block as int) * k.bytes_per_block
}

/// The values divide into rows, and a row into blocks.
pub open spec fn frames(k: KQuant, values: usize, row_len: usize) -> bool {
    &&& row_len > 0
    &&& values % row_len == 0
    &&& k.elements_per_block > 0
    &&& row_len % k.elements_per_block == 0
}

/// Why values cannot be framed.
pub open spec fn unframed_text(
    k: KQuant,
    values: usize,
    row_len: usize,
    tensor: Seq<char>,
) -> Seq<char> {
    if row_len == 0 || values % row_len != 0 {
        "tensor `"@ + tensor + "`: "@ + decimal(values as nat)
            + " values do not divide into rows of "@ + decimal(row_len as nat)
    } else {
        "tensor `"@ + tensor + "`: row length "@ + decimal(row_len as nat)
            + " is not a whole number of "@ + decimal(k.elements_per_block as nat)
            + "-element blocks, so "@ + k.name@ + " rows would share a scale"@
    }
}

/// Why what the encoder wrote is refused.
pub open spec fn miswritten_text(k: KQuant, wrote: usize, bytes: usize, tensor: Seq<char>) -> Seq<
    char,
> {
    "tensor `"@ + tensor + "`: ggml wrote "@ + decimal(wrote as nat) + " bytes for "@ + k.name@
        + ", geometry implies "@ + decimal(bytes as nat)
        + " — the linked ggml disagrees with this build's block table"@
}

impl KQuant {
    /// The geometry of `values` values in rows of `row_len`, or why there is
    /// none.
    pub fn frame(&self, values: usize, row_len: usize, tensor: &str) -> (r: Result<
        Framing,
        VindexError,
    >)
        requires
            self.elements_per_block > 0 ==> encoded_bytes(*self, values as int) <= usize::MAX,
        ensures
            r is Ok <==> frames(*self, values, row_len),
            r matches Ok(f) ==> f.rows == values / row_len && f.bytes == encoded_bytes(
                *self,
                values as int,
            ),
            r matches Err(e) ==> e.text() == unframed_text(*self, values, row_len, tensor@),
    {
        let mut s: String = "tensor `".to_owned();
        s.append(tensor);
        if row_len == 0 || values % row_len != 0 {
            s.append("`: ");
            push_decimal(&mut s, values as u64);
            s.append(" values do not divide into rows of ");
            push_decimal(&mut s, row_len as u64);
            return Err(VindexError::Parse(s));
        }
        if self.elements_per_block == 0 || row_len % self.elements_per_block != 0 {
            s.append("`: row length ");
            push_decimal(&mut s, row_len as u64);
            s.append(" is not a whole number of ");
            push_decimal(&mut s, self.elements_per_block as u64);
            s.append("-element blocks, so ");
            s.append(self.name);
            s.append(" rows would share a scale");
            return Err(VindexError::Parse(s));
        }
        let blocks: usize = values / self.elements_per_block;
        Ok(Framing { rows: values / row_len, bytes: blocks * self.bytes_per_block })
    }

    /// What the encoder wrote, if it wrote what the geometry implies.
    pub fn accept(&self, out: Vec<u8>, wrote: usize, framing: Framing, tensor: &str) -> (r: Result<
        Vec<u8>,
        VindexError,
    >)
        ensures
            wrote == framing.bytes ==> r == Ok::<Vec<u8>, VindexError>(out),
            wrote != framing.bytes ==> (r matches Err(e) && e.text() == miswritten_text(
                *self,
                wrote,
                framing.bytes,
                tensor@,
            )),
    {
        if wrote == framing.bytes {
            return Ok(out);
        }
        let mut s: String = "tensor `".to_owned();
        s.append(tensor);
        s.append("`: ggml wrote ");
        push_decimal(&mut s, wrote as u64);
        s.append(" bytes for ");
        s.append(self.name);
        s.append(", geometry implies ");
        push_decimal(&mut s, framing.bytes as u64);
        s.append(" — the linked ggml disagrees with this build's block table");
        Err(VindexError::Parse(s))
    }
}

/// **Every value is stored.** Values that are framed divide into whole rows
/// and whole blocks, and their bytes are to their values as a block's bytes
/// are to a block's elements.
pub proof fn law_every_value_is_stored(k: KQuant, values: usize, row_len: usize)
    requires
        frames(k, values, row_len),
    ensures
        k.elements_per_block * encoded_bytes(k, values as int) == values * k.bytes_per_block,
        values as int / (row_len as int) * row_len == values,
        row_len as int / (k.elements_per_block as int) * k.elements_per_block == row_len,
{
    let v = values as int;
    let r = row_len as int;
    let e = k.elements_per_block as int;
    let b = k.bytes_per_block as int;
    vstd::arithmetic::div_mod::lemma_fundamental_div_mod(v, r);
    vstd::arithmetic::div_mod::lemma_fundamental_div_mod(r, e);
    let rows = v / r;
    let blocks = r / e;
    assert(v / r * r == r * (v / r)) by (nonlinear_arith);
    assert(r / e * e == e * (r / e)) by (nonlinear_arith);
    assert(v == e * (rows * blocks)) by (nonlinear_arith)
        requires
            v == r * rows,
            r == e * blocks,
    ;
    let n = rows * blocks;
    vstd::arithmetic::div_mod::lemma_div_multiples_vanish(n, e);
    assert((e * n) / e == n);
    assert(e * (n * b) == (e * n) * b) by (nonlinear_arith);
}

/// **When values are framed.** Their rows are whole and so are the blocks of a
/// row; an empty row or an empty block frames nothing.
pub proof fn law_when_values_are_framed(k: KQuant, rows: usize, blocks: usize, values: usize, row_len: usize)
    requires
        row_len == blocks * k.elements_per_block,
        values == rows * row_len,
    ensures
        row_len > 0 ==> frames(k, values, row_len),
        row_len == 0 ==> !frames(k, values, row_len),
{
    if row_len > 0 {
        let r = row_len as int;
        let e = k.elements_per_block as int;
        assert(e > 0) by (nonlinear_arith)
            requires
                r > 0,
                r == blocks * e,
                e >= 0,
        ;
        vstd::arithmetic::div_mod::lemma_mod_multiples_basic(rows as int, r);
        vstd::arithmetic::div_mod::lemma_mod_multiples_basic(blocks as int, e);
    }
}

} // verus!
