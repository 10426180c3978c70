//! Element-wise combination of two integer vectors with scalar extension.
//!
//! The work is done in one pass over the output; the output's contents do
//! not depend on how that pass is split.

use vstd::prelude::*;
use crate::va::{ScalarOp, apply_op, bcast, zip_len, zip_defined, zip_with, op_value, op_defined};

verus! {

/// Combine `a` and `b` element by element: equal lengths pair up, and a
/// side of length one is repeated against every element of the other side.
pub fn binary_i64(a: &[i64], b: &[i64], an: i64, bn: i64, zn: i64, op: ScalarOp) -> (z: Vec<i64>)
    requires
        an == a@.len(),
        bn == b@.len(),
        zn == zip_len(a@, b@),
        zip_defined(op, a@, b@),
    ensures
        z@ == zip_with(op, a@, b@),
{
    let alen = a.len();
    let blen = b.len();
    let len: usize = if alen >= blen { alen } else { blen };
    let mut out: Vec<i64> = Vec::new();
    let mut i: usize = 0;
    while i < len
        invariant
            i <= len,
            len == zip_len(a@, b@),
            out@.len() == i,
    decreases len - i,
    {
        out.push(0);
        i += 1;
    }
    binary_i64_range_mut(a, b, an, bn, 0, &mut out, op);
    assert(out@ =~= zip_with(op, a@, b@));
    out
}

/// Fill `out_chunk` with the combined elements at positions
/// `start .. start + out_chunk.len()` of the output.
fn binary_i64_range_mut(
    a: &[i64],
    b: &[i64],
    an: i64,
    bn: i64,
    start: usize,
    out_chunk: &mut Vec<i64>,
    op: ScalarOp,
)
    requires
        an == a@.len(),
        bn == b@.len(),
        zip_defined(op, a@, b@),
        start + old(out_chunk)@.len() <= zip_len(a@, b@),
    ensures
        final(out_chunk)@.len() == old(out_chunk)@.len(),
        forall|i: int|
            0 <= i < final(out_chunk)@.len() ==> #[trigger] final(out_chunk)@[i] == op_value(
                op,
                bcast(a@, start + i) as int,
                bcast(b@, start + i) as int,
            ),
{
    let len = out_chunk.len();
    let alen = a.len();
    let blen = b.len();
    let ghost n0 = out_chunk@.len();
    if an == 1 && bn == 1 {
        let x = a[0];
        let y = b[0];
        proof {
            if len > 0 {
                assert(bcast(a@, start + 0) == x);
            }
        }
        assert(zip_len(a@, b@) == 1);
        let val = if len > 0 { apply_op(op, x, y) } else { 0 };
        let mut i: usize = 0;
        while i < len
            invariant
                i <= len,
                len == n0,
                out_chunk@.len() == n0,
                len <= 1,
                len > 0 ==> val == op_value(op, x as int, y as int),
                x == a@[0],
                y == b@[0],
                a@.len() == 1,
                b@.len() == 1,
                forall|j: int|
                    0 <= j < i ==> #[trigger] out_chunk@[j] == op_value(
                        op,
                        bcast(a@, start + j) as int,
                        bcast(b@, start + j) as int,
                    ),
            decreases len - i,
        {
            out_chunk.set(i, val);
            i += 1;
        }
    } else if an == 1 {
        let x = a[0];
        let mut i: usize = 0;
        while i < len
            invariant
                i <= len,
                len == n0,
                out_chunk@.len() == n0,
                an == a@.len(),
                bn == b@.len(),
                an == 1,
                bn != 1,
                x == a@[0],
                zip_defined(op, a@, b@),
                start + len <= zip_len(a@, b@),
                alen == a@.len(),
                blen == b@.len(),
                forall|j: int|
                    0 <= j < i ==> #[trigger] out_chunk@[j] == op_value(
                        op,
                        bcast(a@, start + j) as int,
                        bcast(b@, start + j) as int,
                    ),
            decreases len - i,
        {
            assert(bcast(a@, start + i) == x);
            assert(op_defined(op, bcast(a@, start + i) as int, bcast(b@, start + i) as int));
            let v = apply_op(op, x, b[start + i]);
            out_chunk.set(i, v);
            i += 1;
        }
    } else if bn == 1 {
        let y = b[0];
        let mut i: usize = 0;
        while i < len
            invariant
                i <= len,
                len == n0,
                out_chunk@.len() == n0,
                an == a@.len(),
                bn == b@.len(),
                bn == 1,
                an != 1,
                y == b@[0],
                zip_defined(op, a@, b@),
                start + len <= zip_len(a@, b@),
                alen == a@.len(),
                blen == b@.len(),
                forall|j: int|
                    0 <= j < i ==> #[trigger] out_chunk@[j] == op_value(
                        op,
                        bcast(a@, start + j) as int,
                        bcast(b@, start + j) as int,
                    ),
            decreases len - i,
        {
            assert(bcast(b@, start + i) == y);
            assert(op_defined(op, bcast(a@, start + i) as int, bcast(b@, start + i) as int));
            let v = apply_op(op, a[start + i], y);
            out_chunk.set(i, v);
            i += 1;
        }
    } else {
        let mut i: usize = 0;
        while i < len
            invariant
                i <= len,
                len == n0,
                out_chunk@.len() == n0,
                an == a@.len(),
                bn == b@.len(),
                bn != 1,
                an != 1,
                zip_defined(op, a@, b@),
                start + len <= zip_len(a@, b@),
                alen == a@.len(),
                blen == b@.len(),
                forall|j: int|
                    0 <= j < i ==> #[trigger] out_chunk@[j] == op_value(
                        op,
                        bcast(a@, start + j) as int,
                        bcast(b@, start + j) as int,
                    ),
            decreases len - i,
        {
            assert(op_defined(op, bcast(a@, start + i) as int, bcast(b@, start + i) as int));
            let v = apply_op(op, a[start + i], b[start + i]);
            out_chunk.set(i, v);
            i += 1;
        }
    }
}

} // verus!
