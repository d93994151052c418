//! Vectors of plain values.
use vstd::prelude::*;

verus! {

/// A copy of a vector of plain values.
pub fn copy_of<T: Copy>(items: &Vec<T>) -> (copied: Vec<T>)
    ensures
        copied@ == items@,
{
    let mut copied: Vec<T> = Vec::with_capacity(items.len());
    for i in 0..items.len()
        invariant
            copied@ == items@.take(i as int),
    {
        copied.push(items[i]);
        assert(items@.take(i + 1) =~= items@.take(i as int).push(items[i as int]));
    }
    assert(items@.take(items.len() as int) =~= items@);
    copied
}

/// A vector of `count` equal values.
pub fn filled<T: Copy>(value: T, count: usize) -> (items: Vec<T>)
    ensures
        items@ == Seq::new(count as nat, |i: int| value),
{
    let mut items: Vec<T> = Vec::with_capacity(count);
    for i in 0..count
        invariant
            items@ == Seq::new(i as nat, |j: int| value),
    {
        items.push(value);
        assert(items@ =~= Seq::new((i + 1) as nat, |j: int| value));
    }
    items
}

} // verus!
