//! Which media a refracted ray leaves and enters at a crossing, found by
//! replaying the sorted crossings as a stack of objects the ray is inside.

use vstd::prelude::*;
use crate::intersections::Intersection;

verus! {

/// `stack` with every occurrence of `object` taken out, the rest in order.
pub open spec fn without(stack: Seq<usize>, object: usize) -> Seq<usize>
    decreases stack.len(),
{
    if stack.len() == 0 {
        stack
    } else {
        let rest = without(stack.drop_last(), object);
        if stack.last() == object {
            rest
        } else {
            rest.push(stack.last())
        }
    }
}

/// The objects that the ray is inside of after passing the first `k`
/// crossings of `xs`, innermost last: a crossing enters its object when the
/// object is not on the stack, and leaves it otherwise.
pub open spec fn containers_after(xs: Seq<Intersection>, k: nat) -> Seq<usize>
    decreases k,
{
    if k == 0 {
        Seq::empty()
    } else {
        let before = containers_after(xs, (k - 1) as nat);
        let o = xs[k - 1].object;
        if before.contains(o) {
            without(before, o)
        } else {
            before.push(o)
        }
    }
}

/// The innermost container, if any.
pub open spec fn innermost(stack: Seq<usize>) -> Option<usize> {
    if stack.len() == 0 {
        None
    } else {
        Some(stack.last())
    }
}

/// The objects whose refractive indices bound the crossing at index `hit`:
/// the medium being left (the innermost container before the crossing) and
/// the medium being entered (the innermost container after it). `None`
/// stands for empty space, of refractive index one.
pub fn refraction_media(xs: &Vec<Intersection>, hit: usize) -> (r: (Option<usize>, Option<usize>))
    requires
        hit < xs.len(),
    ensures
        r.0 == innermost(containers_after(xs@, hit as nat)),
        r.1 == innermost(containers_after(xs@, hit as nat + 1)),
{
    let mut containers: Vec<usize> = Vec::new();
    let mut i: usize = 0;
    while i < hit
        invariant
            i <= hit < xs.len(),
            containers@ == containers_after(xs@, i as nat),
        decreases hit - i,
    {
        step(&mut containers, xs[i].object);
        i = i + 1;
    }
    let n1 = top(&containers);
    step(&mut containers, xs[hit].object);
    let n2 = top(&containers);
    (n1, n2)
}

fn top(stack: &Vec<usize>) -> (r: Option<usize>)
    ensures
        r == innermost(stack@),
{
    if stack.len() == 0 {
        None
    } else {
        Some(stack[stack.len() - 1])
    }
}

/// Passes one crossing of `object`: leaves it when inside, else enters it.
fn step(stack: &mut Vec<usize>, object: usize)
    ensures
        final(stack)@ == (if old(stack)@.contains(object) {
            without(old(stack)@, object)
        } else {
            old(stack)@.push(object)
        }),
{
    let mut found = false;
    let mut j: usize = 0;
    while j < stack.len()
        invariant
            j <= stack.len(),
            found <==> exists|m: int| 0 <= m < j && stack@[m] == object,
        decreases stack.len() - j,
    {
        if stack[j] == object {
            found = true;
        }
        j = j + 1;
    }
    if found {
        let mut kept: Vec<usize> = Vec::new();
        let mut k: usize = 0;
        while k < stack.len()
            invariant
                k <= stack.len(),
                kept@ == without(stack@.subrange(0, k as int), object),
            decreases stack.len() - k,
        {
            assert(stack@.subrange(0, k as int + 1).drop_last() == stack@.subrange(0, k as int));
            if stack[k] != object {
                kept.push(stack[k]);
            }
            k = k + 1;
        }
        assert(stack@.subrange(0, stack.len() as int) == stack@);
        *stack = kept;
    } else {
        stack.push(object);
    }
}

} // verus!
