//! Small helpers on vectors.
use vstd::prelude::*;

verus! {

/// A copy of `v`.
pub fn copied<T: Copy>(v: &Vec<T>) -> (r: Vec<T>)
    ensures
        r@ == v@,
{
    let mut r: Vec<T> = Vec::new();
    let mut i: usize = 0;
    while i < v.len()
        invariant
            i <= v.len(),
            r@ == v@.take(i as int),
        decreases v.len() - i,
    {
        r.push(v[i]);
        assert(v@.take(i + 1) =~= v@.take(i as int).push(v@[i as int]));
        i += 1;
    }
    assert(v@.take(i as int) =~= v@);
    r
}

/// A vector of `len` items, each of them `item`.
pub fn filled<T: Copy>(len: usize, item: T) -> (r: Vec<T>)
    ensures
        r@ == Seq::new(len as nat, |i: int| item),
{
    let mut r: Vec<T> = Vec::new();
    let mut i: usize = 0;
    while i < len
        invariant
            i <= len,
            r@ == Seq::new(i as nat, |j: int| item),
        decreases len - i,
    {
        r.push(item);
        assert(r@ =~= Seq::new((i + 1) as nat, |j: int| item));
        i += 1;
    }
    r
}

/// `v` with `item` at place `at` and everything else as it is.
pub fn with_item<T: Copy>(v: &Vec<T>, at: usize, item: T) -> (r: Vec<T>)
    requires
        at < v.len(),
    ensures
        r@ == v@.update(at as int, item),
{
    let mut r = copied(v);
    r.set(at, item);
    r
}

} // verus!
