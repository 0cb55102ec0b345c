//! What a policy must look like and what its output means. Running the policy
//! is left to the caller.

use vstd::prelude::*;

use crate::num::{clamp, NANO};
use crate::text::{join2, join3};

verus! {

/// The features of an observation.
pub const OBS_DIM: usize = 20;

/// The numbers of an action.
pub const ACT_DIM: usize = 2;

/// The width of a policy's input: its last dimension, or -1 where it has none.
pub open spec fn input_width(dims: Seq<i64>) -> int {
    if dims.len() == 0 {
        -1
    } else {
        dims.last() as int
    }
}

/// Refuses a policy that was trained on another observation; the error is the
/// width that it expects.
pub fn check_input(dims: &Vec<i64>) -> (r: Result<(), i64>)
    ensures
        r is Ok <==> input_width(dims@) == OBS_DIM,
        r matches Err(width) ==> width == input_width(dims@),
{
    let last: i64 = if dims.len() == 0 {
        -1
    } else {
        dims[dims.len() - 1]
    };
    if last == OBS_DIM as i64 {
        Ok(())
    } else {
        Err(last)
    }
}

/// One number of an action, moved into -1 ..= 1.
pub open spec fn unit_of(x: i64) -> i64 {
    clamp(x as int, -NANO as int, NANO as int) as i64
}

/// The action in a policy's output: its first two numbers in billionths, each
/// moved into -1 ..= 1. None where there are fewer.
pub fn read_action(output: &Vec<i64>) -> (r: Option<[i64; 2]>)
    ensures
        r is Some <==> output@.len() >= ACT_DIM,
        r matches Some(a) ==> a@[0] == unit_of(output@[0]) && a@[1] == unit_of(output@[1]),
{
    if output.len() < ACT_DIM {
        return None;
    }
    Some([to_unit(output[0]), to_unit(output[1])])
}

fn to_unit(x: i64) -> (r: i64)
    ensures
        r == unit_of(x),
{
    if x < -NANO {
        -NANO
    } else if x > NANO {
        NANO
    } else {
        x
    }
}

/// The file that holds a category's policy.
pub fn policy_path(models_dir: &str, prefix: &str, category: &str) -> (r: String)
    ensures
        r@ == models_dir@ + "/"@ + prefix@ + "_"@ + category@ + "_final.onnx"@,
{
    let head = join3(models_dir, "/", prefix);
    let name = join3(head.as_str(), "_", category);
    join2(name.as_str(), "_final.onnx")
}

} // verus!
