//! Numbering of a node's optional input and output slots.
//!
//! A node lists its inputs and outputs by name; an absent optional
//! slot carries an empty name. Each present slot gets the rank it has
//! among the present slots alone.

use vstd::prelude::*;

verus! {

/// How many of the first `n` slots are present.
pub open spec fn present_before(s: Seq<bool>, n: int) -> nat
    decreases n,
{
    if n <= 0 {
        0
    } else {
        present_before(s, n - 1) + (if s[n - 1] {
            1nat
        } else {
            0nat
        })
    }
}

proof fn lemma_present_before_bound(s: Seq<bool>, n: int)
    requires
        0 <= n <= s.len(),
    ensures
        present_before(s, n) <= n,
    decreases n,
{
    if n > 0 {
        lemma_present_before_bound(s, n - 1);
    }
}

/// Numbers the present input slots: element `k` is `Some(rank of k
/// among the present slots)` where slot `k` is present, and `None`
/// where it is absent.
pub fn optional_inputs(present: &Vec<bool>) -> (r: Vec<Option<usize>>)
    ensures
        r@.len() == present@.len(),
        forall|k: int| 0 <= k < present@.len()
            ==> r@[k] == (if present@[k] {
                Some(present_before(present@, k) as usize)
            } else {
                None::<usize>
            }),
{
    let mut out: Vec<Option<usize>> = Vec::new();
    let mut count: usize = 0;
    let mut k: usize = 0;
    while k < present.len()
        invariant
            k <= present@.len(),
            count as nat == present_before(present@, k as int),
            out@.len() == k,
            forall|t: int| 0 <= t < k
                ==> out@[t] == (if present@[t] {
                    Some(present_before(present@, t) as usize)
                } else {
                    None::<usize>
                }),
        decreases present@.len() - k,
    {
        proof {
            lemma_present_before_bound(present@, k as int);
        }
        if present[k] {
            out.push(Some(count));
            count = count + 1;
        } else {
            out.push(None);
        }
        k = k + 1;
    }
    out
}

/// Numbers the present output slots, as [`optional_inputs`] does for
/// inputs.
pub fn optional_outputs(present: &Vec<bool>) -> (r: Vec<Option<usize>>)
    ensures
        r@.len() == present@.len(),
        forall|k: int| 0 <= k < present@.len()
            ==> r@[k] == (if present@[k] {
                Some(present_before(present@, k) as usize)
            } else {
                None::<usize>
            }),
{
    optional_inputs(present)
}

} // verus!
