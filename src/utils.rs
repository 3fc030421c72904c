use vstd::prelude::*;

verus! {

/// Exchanges two elements of a vector of any element type.
pub fn vec_swap<T>(v: &mut Vec<T>, i: usize, j: usize)
    requires
        i < old(v).len(),
        j < old(v).len(),
    ensures
        final(v)@ == old(v)@.update(i as int, old(v)@[j as int]).update(j as int, old(v)@[i as int]),
{
    if i == j {
        assert(v@ =~= old(v)@.update(i as int, old(v)@[j as int]).update(j as int, old(v)@[i as int]));
        return;
    }
    let n = v.len();
    let mut tmp = v.pop().unwrap();
    if i == n - 1 {
        std::mem::swap(&mut tmp, &mut v[j]);
    } else if j == n - 1 {
        std::mem::swap(&mut tmp, &mut v[i]);
    } else {
        std::mem::swap(&mut tmp, &mut v[i]);
        std::mem::swap(&mut tmp, &mut v[j]);
        std::mem::swap(&mut tmp, &mut v[i]);
    }
    v.push(tmp);
    assert(v@ =~= old(v)@.update(i as int, old(v)@[j as int]).update(j as int, old(v)@[i as int]));
}

} // verus!
