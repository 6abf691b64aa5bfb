//! Byte-exact persistence of the transition table: a flat row-major sequence
//! of 16-bit little-endian cells, with no header and no checksum.  The reader
//! must know the element count out of band; a byte image of the wrong length
//! or with an out-of-range cell is rejected, and the caller falls back to
//! rebuilding the table from scratch.

use crate::group::GROUP_LIMIT;
use crate::table::TransTable;
use vstd::prelude::*;

verus! {

/// The little-endian byte image of a cell sequence: low byte, then high byte,
/// for each cell in order.
pub open spec fn encoded(cells: Seq<u16>) -> Seq<u8> {
    Seq::new(
        cells.len() * 2,
        |t: int|
            if t % 2 == 0 {
                ((cells[t / 2] as int) % 256) as u8
            } else {
                ((cells[t / 2] as int) / 256) as u8
            },
    )
}

/// The cell at index `k` of a byte image: low byte plus 256 times high byte.
pub open spec fn decoded_cell(bytes: Seq<u8>, k: int) -> int {
    bytes[2 * k] + 256 * bytes[2 * k + 1]
}

/// Serializes the table's cells as little-endian 16-bit words, row-major.
pub fn encode_lut(t: &TransTable) -> (r: Vec<u8>)
    ensures
        r@ == encoded(t.cells@),
{
    let mut out: Vec<u8> = Vec::new();
    let mut k: usize = 0;
    while k < t.cells.len()
        invariant
            k <= t.cells@.len(),
            out@.len() == 2 * k,
            forall|s: int| 0 <= s < out@.len() ==> (#[trigger] out@[s]) == encoded(t.cells@)[s],
        decreases t.cells@.len() - k,
    {
        let c = t.cells[k];
        out.push((c % 256) as u8);
        out.push((c / 256) as u8);
        proof {
            vstd::arithmetic::div_mod::lemma_fundamental_div_mod_converse(
                2 * (k as int),
                2,
                k as int,
                0,
            );
            vstd::arithmetic::div_mod::lemma_fundamental_div_mod_converse(
                2 * (k as int) + 1,
                2,
                k as int,
                1,
            );
            assert(out@[2 * (k as int)] == encoded(t.cells@)[2 * (k as int)]);
            assert(out@[2 * (k as int) + 1] == encoded(t.cells@)[2 * (k as int) + 1]);
        }
        k += 1;
    }
    proof {
        assert(out@ =~= encoded(t.cells@));
    }
    out
}

/// Deserializes a byte image into a table of `groupsize` rows and columns.
/// Returns the table exactly when the image has the right length and every
/// cell is a valid id; anything else is a stale or corrupt artifact.
pub fn decode_lut(bytes: &Vec<u8>, groupsize: usize) -> (r: Option<TransTable>)
    ensures
        r is Some <==> (groupsize <= GROUP_LIMIT && bytes@.len() == 2 * (groupsize * groupsize)
            && (forall|k: int|
            0 <= k < groupsize * groupsize ==> decoded_cell(bytes@, k) < groupsize)),
        (r matches Some(t) ==> t.wf() && t.size == groupsize && t.cells@.len() == groupsize
            * groupsize && (forall|k: int|
            0 <= k < t.cells@.len() ==> (#[trigger] t.cells@[k]) as int == decoded_cell(
                bytes@,
                k,
            ))),
{
    if groupsize > GROUP_LIMIT {
        return None;
    }
    proof {
        assert(groupsize * groupsize <= 0xFFFE0001) by (nonlinear_arith)
            requires
                groupsize <= 0xFFFF,
        ;
    }
    let need = groupsize * groupsize;
    proof {
        vstd::arithmetic::div_mod::lemma_fundamental_div_mod(bytes@.len() as int, 2);
        vstd::arithmetic::div_mod::lemma_mod_bound(bytes@.len() as int, 2);
    }
    if bytes.len() % 2 != 0 || bytes.len() / 2 != need {
        return None;
    }
    let mut cells: Vec<u16> = Vec::new();
    let mut k: usize = 0;
    while k < need
        invariant
            groupsize <= GROUP_LIMIT,
            need == groupsize * groupsize,
            bytes@.len() == 2 * need,
            k <= need,
            bytes@.len() <= usize::MAX,
            cells@.len() == k,
            forall|s: int|
                0 <= s < k ==> (#[trigger] cells@[s]) as int == decoded_cell(bytes@, s)
                    && cells@[s] < groupsize,
        decreases need - k,
    {
        proof {
            assert(2 * k + 1 < bytes@.len());
        }
        let b0 = bytes[2 * k];
        let b1 = bytes[2 * k + 1];
        let cell: u16 = b0 as u16 + 256 * (b1 as u16);
        if cell as usize >= groupsize {
            proof {
                assert(decoded_cell(bytes@, k as int) >= groupsize);
            }
            return None;
        }
        cells.push(cell);
        k += 1;
    }
    let t = TransTable { size: groupsize, cells };
    proof {
        assert forall|s: int|
            0 <= s < groupsize * groupsize implies #[trigger] decoded_cell(bytes@, s)
            < groupsize by {
            assert(cells@[s] as int == decoded_cell(bytes@, s));
        }
    }
    Some(t)
}

/// Persistence round trip: decoding the byte image of a well-formed table
/// yields the same length and the same cell at every index, so a load after a
/// save restores the table exactly.
pub proof fn lemma_codec_roundtrip(t: TransTable)
    requires
        t.wf(),
    ensures
        encoded(t.cells@).len() == 2 * (t.size * t.size),
        forall|k: int|
            0 <= k < t.cells@.len() ==> #[trigger] decoded_cell(encoded(t.cells@), k)
                == t.cells@[k] as int && decoded_cell(encoded(t.cells@), k) < t.size,
{
    let b = encoded(t.cells@);
    assert forall|k: int|
        0 <= k < t.cells@.len() implies #[trigger] decoded_cell(b, k) == t.cells@[k] as int
        && decoded_cell(b, k) < t.size by {
        vstd::arithmetic::div_mod::lemma_fundamental_div_mod_converse(2 * k, 2, k, 0);
        vstd::arithmetic::div_mod::lemma_fundamental_div_mod_converse(2 * k + 1, 2, k, 1);
        assert(b[2 * k] == ((t.cells@[k] as int) % 256) as u8);
        assert(b[2 * k + 1] == ((t.cells@[k] as int) / 256) as u8);
        vstd::arithmetic::div_mod::lemma_fundamental_div_mod(t.cells@[k] as int, 256);
        vstd::arithmetic::div_mod::lemma_mod_bound(t.cells@[k] as int, 256);
    }
}

} // verus!
