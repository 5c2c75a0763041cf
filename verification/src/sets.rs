//! Small duplicate-free vectors used for the derived sets of the
//! analysis: membership tests and insert-if-absent, which keeps first
//! insertion order and therefore a deterministic layout.

use vstd::prelude::*;

verus! {

/// `s` extended by `x` unless `x` is already present.
pub open spec fn add_unique<T>(s: Seq<T>, x: T) -> Seq<T> {
    if s.contains(x) {
        s
    } else {
        s.push(x)
    }
}

/// `s` extended by every element of `xs` in turn, each unless already
/// present.
pub open spec fn extend_unique<T>(s: Seq<T>, xs: Seq<T>) -> Seq<T>
    decreases xs.len(),
{
    if xs.len() == 0 {
        s
    } else {
        add_unique(extend_unique(s, xs.drop_last()), xs.last())
    }
}

/// Membership in `add_unique(s, x)` is membership in `s` or equality
/// with `x`.
pub proof fn lemma_add_unique_contains<T>(s: Seq<T>, x: T, y: T)
    ensures
        add_unique(s, x).contains(y) <==> (s.contains(y) || y == x),
{
    if !s.contains(x) {
        assert(s.push(x)[s.len() as int] == x);
        if s.contains(y) {
            let k = choose|k: int| 0 <= k < s.len() && s[k] == y;
            assert(s.push(x)[k] == y);
        }
        if add_unique(s, x).contains(y) && y != x {
            let k = choose|k: int| 0 <= k < s.push(x).len() && s.push(x)[k] == y;
            assert(s[k] == y);
        }
    }
}

/// `add_unique` neither creates nor removes duplicates.
pub proof fn lemma_add_unique_no_duplicates<T>(s: Seq<T>, x: T)
    requires
        s.no_duplicates(),
    ensures
        add_unique(s, x).no_duplicates(),
{
    if !s.contains(x) {
        assert forall|i: int, j: int|
            0 <= i < add_unique(s, x).len() && 0 <= j < add_unique(s, x).len() && i
                != j implies add_unique(s, x)[i] != add_unique(s, x)[j] by {
            if i < s.len() && j < s.len() {
            } else if j == s.len() {
                assert(s.push(x)[i] == s[i]);
                assert(s.contains(s[i]));
            } else {
                assert(s.push(x)[j] == s[j]);
                assert(s.contains(s[j]));
            }
        }
    }
}

/// Whether `v` holds `x`.
pub fn contains_u8(v: &Vec<u8>, x: u8) -> (r: bool)
    ensures
        r == v@.contains(x),
{
    let mut i: usize = 0;
    while i < v.len()
        invariant
            i <= v@.len(),
            forall|k: int| 0 <= k < i ==> v@[k] != x,
        decreases v@.len() - i,
    {
        if v[i] == x {
            return true;
        }
        i = i + 1;
    }
    false
}

/// Whether `v` holds `x`.
pub fn contains_u32(v: &Vec<u32>, x: u32) -> (r: bool)
    ensures
        r == v@.contains(x),
{
    let mut i: usize = 0;
    while i < v.len()
        invariant
            i <= v@.len(),
            forall|k: int| 0 <= k < i ==> v@[k] != x,
        decreases v@.len() - i,
    {
        if v[i] == x {
            return true;
        }
        i = i + 1;
    }
    false
}

/// Whether `v` holds `x`.
pub fn contains_usize(v: &Vec<usize>, x: usize) -> (r: bool)
    ensures
        r == v@.contains(x),
{
    let mut i: usize = 0;
    while i < v.len()
        invariant
            i <= v@.len(),
            forall|k: int| 0 <= k < i ==> v@[k] != x,
        decreases v@.len() - i,
    {
        if v[i] == x {
            return true;
        }
        i = i + 1;
    }
    false
}

/// Appends `x` unless already present.
pub fn insert_unique_u8(v: &mut Vec<u8>, x: u8)
    ensures
        final(v)@ == add_unique(old(v)@, x),
{
    if !contains_u8(v, x) {
        v.push(x);
    }
}

/// Appends `x` unless already present.
pub fn insert_unique_u32(v: &mut Vec<u32>, x: u32)
    ensures
        final(v)@ == add_unique(old(v)@, x),
{
    if !contains_u32(v, x) {
        v.push(x);
    }
}

/// Appends `x` unless already present.
pub fn insert_unique_usize(v: &mut Vec<usize>, x: usize)
    ensures
        final(v)@ == add_unique(old(v)@, x),
{
    if !contains_usize(v, x) {
        v.push(x);
    }
}

/// Membership in `s.push(x)` is membership in `s` or equality with `x`.
pub proof fn lemma_push_contains<T>(s: Seq<T>, x: T, y: T)
    ensures
        s.push(x).contains(y) <==> (s.contains(y) || y == x),
{
    assert(s.push(x)[s.len() as int] == x);
    if s.contains(y) {
        let k = choose|k: int| 0 <= k < s.len() && s[k] == y;
        assert(s.push(x)[k] == y);
    }
    if s.push(x).contains(y) && y != x {
        let k = choose|k: int| 0 <= k < s.push(x).len() && s.push(x)[k] == y;
        assert(s[k] == y);
    }
}

/// A copy of `v`, element for element.
pub fn copy_usizes(v: &Vec<usize>) -> (r: Vec<usize>)
    ensures
        r@ == v@,
{
    let mut r: Vec<usize> = Vec::new();
    let mut i: usize = 0;
    while i < v.len()
        invariant
            i <= v@.len(),
            r@ == v@.take(i as int),
        decreases v@.len() - i,
    {
        r.push(v[i]);
        proof {
            v@.lemma_take_succ_push(i as int);
        }
        i = i + 1;
    }
    proof {
        assert(v@.take(v@.len() as int) =~= v@);
    }
    r
}

} // verus!

