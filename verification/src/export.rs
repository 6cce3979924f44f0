//! What is done to an estimated curve before it leaves: it is cut to the
//! range between the sensor's floor and ceiling.

use vstd::prelude::*;
use crate::curve::{lerp_slice, uniform_sample};
use crate::fixed::{ONE, floor_div_signed, floor_ratio, narrow, saturate};

verus! {

/// Whether a table can be cut to a floor and a ceiling: both lie in
/// `[0, ONE]`, the floor below the ceiling, and the table has different
/// values at the two.
pub open spec fn can_renormalize(table: Seq<i64>, floor: int, ceiling: int) -> bool {
    &&& table.len() >= 2
    &&& 0 <= floor < ceiling <= ONE
    &&& uniform_sample(table, floor) != uniform_sample(table, ceiling)
}

/// An entry of a table after the cut: where it stands between the value
/// at the floor, which becomes `0`, and the value at the ceiling, which
/// becomes `ONE`; rounded down.
pub open spec fn renormalized_entry(table: Seq<i64>, floor: int, ceiling: int, i: int) -> int {
    let low = uniform_sample(table, floor);
    let high = uniform_sample(table, ceiling);
    saturate(floor_ratio((table[i] - low) * ONE, high - low))
}

/// Cuts a table to the range between a floor and a ceiling, or gives
/// nothing where that cannot be done.
pub fn renormalize(table: &Vec<i64>, floor: i64, ceiling: i64) -> (r: Option<Vec<i64>>)
    ensures
        r.is_some() <==> can_renormalize(table@, floor as int, ceiling as int),
        r.is_some() ==> r.unwrap().len() == table.len() && forall|i: int|
            0 <= i < table.len() ==> r.unwrap()[i] == renormalized_entry(
                table@,
                floor as int,
                ceiling as int,
                i,
            ),
{
    if table.len() < 2 || floor < 0 || ceiling > ONE || floor >= ceiling {
        return None;
    }
    let low: i64 = lerp_slice(table, floor);
    let high: i64 = lerp_slice(table, ceiling);
    if low == high {
        return None;
    }
    let width: i128 = high as i128 - low as i128;
    let mut cut: Vec<i64> = Vec::new();
    let mut i: usize = 0;
    while i < table.len()
        invariant
            0 <= i <= table.len(),
            low == uniform_sample(table@, floor as int),
            high == uniform_sample(table@, ceiling as int),
            width == high - low,
            width != 0,
            cut.len() == i,
            forall|k: int|
                0 <= k < i ==> cut[k] == renormalized_entry(
                    table@,
                    floor as int,
                    ceiling as int,
                    k,
                ),
        decreases table.len() - i,
    {
        let above: i128 = table[i] as i128 - low as i128;
        assert(-0x4000_0000_0000_0000_0000_0000 <= above * ONE <= 0x4000_0000_0000_0000_0000_0000)
            by (nonlinear_arith)
            requires
                -0x1_0000_0000_0000_0000 <= above <= 0x1_0000_0000_0000_0000,
        ;
        cut.push(narrow(floor_div_signed(above * (ONE as i128), width)));
        i = i + 1;
    }
    Some(cut)
}

} // verus!
