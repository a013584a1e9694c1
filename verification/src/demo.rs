//! A small worked example unit: the arithmetic and vector helpers whose
//! source text the integration tests hand to the engine. The functions
//! themselves are verified like the rest of the crate; the printing around
//! them lives outside the library.

use vstd::prelude::*;

verus! {

/// Adds two numbers; the annotated example of a verified function.
pub fn verified_add(a: u32, b: u32) -> (r: u32)
    requires
        a + b <= u32::MAX,
    ensures
        r == a + b,
{
    a + b
}

/// Doubles its argument.
pub fn helper_function(n: i32) -> (r: i32)
    requires
        i32::MIN <= 2 * (n as int) <= i32::MAX,
    ensures
        r == 2 * n,
{
    n * 2
}

/// Adds two numbers.
pub fn add_numbers(a: i32, b: i32) -> (r: i32)
    requires
        i32::MIN <= a + b <= i32::MAX,
    ensures
        r == a + b,
{
    a + b
}

/// Doubles `x`, then adds `y`.
pub fn calculate_sum(x: i32, y: i32) -> (r: i32)
    requires
        i32::MIN <= 2 * (x as int) <= i32::MAX,
        i32::MIN <= 2 * (x as int) + y <= i32::MAX,
    ensures
        r == 2 * x + y,
{
    let temp = helper_function(x);
    add_numbers(temp, y)
}

/// Doubles every element of the input, keeping order and length.
pub fn process_data(input: Vec<i32>) -> (r: Vec<i32>)
    requires
        forall|i: int|
            0 <= i < input@.len() ==> i32::MIN <= 2 * (#[trigger] input@[i] as int) <= i32::MAX,
    ensures
        r@.len() == input@.len(),
        forall|i: int| 0 <= i < input@.len() ==> #[trigger] r@[i] == 2 * input@[i],
{
    let mut r: Vec<i32> = Vec::new();
    let mut i: usize = 0;
    while i < input.len()
        invariant
            i <= input@.len(),
            r@.len() == i,
            forall|k: int|
                0 <= k < input@.len() ==> i32::MIN <= 2 * (#[trigger] input@[k] as int)
                    <= i32::MAX,
            forall|k: int| 0 <= k < i ==> #[trigger] r@[k] == 2 * input@[k],
        decreases input@.len() - i,
    {
        r.push(input[i] * 2);
        i = i + 1;
    }
    r
}

/// Processes the fixed sample data and hands the result back for the caller
/// to display.
pub fn public_api_function() -> (r: Vec<i32>)
    ensures
        r@ =~= seq![2i32, 4i32, 6i32],
{
    let mut data: Vec<i32> = Vec::new();
    data.push(1);
    data.push(2);
    data.push(3);
    let out = process_data(data);
    proof {
        assert(out@ =~= seq![2i32, 4i32, 6i32]);
    }
    out
}

} // verus!
