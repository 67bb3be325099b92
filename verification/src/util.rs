//! Small formatting and selection helpers used by the text rendering
//! around the matrix core.

use vstd::prelude::*;

verus! {

/// Right-align `s` in a field of `space` characters, padding with blanks.
pub fn tab(s: &str, space: usize) -> (r: String)
    requires
        s@.len() <= space,
    ensures
        r@.len() == space,
        r@.skip(space - s@.len()) == s@,
        forall|t: int| 0 <= t < space - s@.len() ==> r@[t] == ' ',
{
    proof {
        reveal_strlit(" ");
    }
    let l = s.unicode_len();
    let pad = space - l;
    let mut m = String::new();
    let mut k: usize = 0;
    while k < pad
        invariant
            k <= pad,
            m@.len() == k,
            forall|t: int| 0 <= t < k ==> m@[t] == ' ',
        decreases pad - k,
    {
        proof {
            reveal_strlit(" ");
        }
        m.append(" ");
        k += 1;
    }
    m.append(s);
    proof {
        assert(m@.skip(space - s@.len()) =~= s@);
    }
    m
}

/// The quotient and the remainder of `x` by `y`, as a machine-int pair.
pub fn quot_rem(x: usize, y: usize) -> (r: (i32, i32))
    requires
        1 <= y,
        x / y <= i32::MAX,
        x % y <= i32::MAX,
    ensures
        r.0 == x / y,
        r.1 == x % y,
{
    ((x / y) as i32, (x % y) as i32)
}

/// The shorter of two strings; on a tie, the first.
pub fn choose_shorter_string(x1: String, x2: String) -> (r: String)
    ensures
        r@ == (if x1@.len() > x2@.len() {
            x2@
        } else {
            x1@
        }),
{
    if x1.as_str().unicode_len() > x2.as_str().unicode_len() {
        x2
    } else {
        x1
    }
}

/// An explicit copy of a buffer of scalars.
fn copy_vec(x: &Vec<u64>) -> (r: Vec<u64>)
    ensures
        r@ == x@,
{
    let mut v: Vec<u64> = Vec::new();
    let n = x.len();
    let mut k: usize = 0;
    while k < n
        invariant
            n == x@.len(),
            k <= n,
            v@.len() == k,
            forall|t: int| 0 <= t < k ==> #[trigger] v@[t] == x@[t],
        decreases n - k,
    {
        v.push(x[k]);
        k += 1;
    }
    proof {
        assert(v@ =~= x@);
    }
    v
}

/// The shorter of two scalar buffers; on a tie, the first.
pub fn choose_shorter_vec(x1: &Vec<u64>, x2: &Vec<u64>) -> (r: Vec<u64>)
    ensures
        r@ == (if x1@.len() > x2@.len() {
            x2@
        } else {
            x1@
        }),
{
    if x1.len() > x2.len() {
        copy_vec(x2)
    } else {
        copy_vec(x1)
    }
}

/// The longer of two scalar buffers; on a tie, the second.
pub fn choose_longer_vec(x1: &Vec<u64>, x2: &Vec<u64>) -> (r: Vec<u64>)
    ensures
        r@ == (if x1@.len() <= x2@.len() {
            x2@
        } else {
            x1@
        }),
{
    if x1.len() <= x2.len() {
        copy_vec(x2)
    } else {
        copy_vec(x1)
    }
}

} // verus!
