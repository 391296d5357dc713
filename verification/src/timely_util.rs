//! Command-line arguments for differential dataflow.

use vstd::prelude::*;
use crate::text::{chars_of, decimal, push_decimal, string_of};

verus! {

/// The arguments that ask differential dataflow for `workers` worker threads: `-w` and the
/// number, where more than one is asked for, and none where one is enough.
pub fn populate_args_for_differential_dataflow(workers: u32) -> (r: Vec<String>)
    ensures
        workers > 1 ==> r@.len() == 2 && r@[0]@ == "-w"@ && r@[1]@ == decimal(workers as nat),
        workers <= 1 ==> r@.len() == 0,
{
    let mut dataflow_arg: Vec<String> = Vec::new();
    if workers > 1 {
        dataflow_arg.push(string_of(&chars_of("-w")));
        let mut digits: Vec<char> = Vec::new();
        push_decimal(&mut digits, workers as u64);
        proof {
            assert(digits@ =~= decimal(workers as nat));
        }
        dataflow_arg.push(string_of(&digits));
    }
    dataflow_arg
}

} // verus!
