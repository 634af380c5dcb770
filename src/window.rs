//! Window extraction: which start positions of the template are evaluated.

use vstd::prelude::*;

verus! {

/// The last start position at which a window of `length` fits in the template,
/// or 0 when the template is shorter than the window.
pub open spec fn max_start(template_len: nat, length: nat) -> nat {
    if template_len >= length {
        (template_len - length) as nat
    } else {
        0
    }
}

/// The start positions `0, step, 2 * step, ...` up to `max_start`.
pub open spec fn window_positions(template_len: nat, length: nat, step: nat) -> Seq<usize>
    recommends
        step > 0,
{
    Seq::new(max_start(template_len, length) / step + 1, |i: int| (i * step) as usize)
}

/// Every start position of a window of `length` over a template of
/// `template_len`, `resolution` apart, in increasing order.
///
/// When the template is shorter than the window the only position is 0; the
/// analysis of that position reports it as skipped.
pub fn positions(template_len: usize, length: usize, resolution: usize) -> (r: Vec<usize>)
    requires
        length > 0,
        resolution > 0,
    ensures
        r@ == window_positions(template_len as nat, length as nat, resolution as nat),
{
    let last: usize = if template_len >= length { template_len - length } else { 0 };
    let n: usize = last / resolution + 1;
    let ghost step = resolution as nat;
    let mut r: Vec<usize> = Vec::new();
    let mut k: usize = 0;
    while k < n
        invariant
            resolution > 0,
            step == resolution as nat,
            last == max_start(template_len as nat, length as nat),
            n as nat == last as nat / step + 1,
            k <= n,
            r@.len() == k,
            forall|i: int| 0 <= i < k ==> r@[i] == i * step,
        decreases n - k,
    {
        proof {
            let (ki, ni, li, si) = (k as int, n as int, last as int, step as int);
            assert(ki * si <= li) by (nonlinear_arith)
                requires ki < ni, ni == li / si + 1, si > 0, ki >= 0;
        }
        r.push(k * resolution);
        k = k + 1;
    }
    proof {
        assert(r@ =~= window_positions(template_len as nat, length as nat, step));
    }
    r
}

} // verus!
