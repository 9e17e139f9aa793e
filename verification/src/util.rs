//! Small executable helpers whose contracts are stated on deep views.

use vstd::prelude::*;
use vstd::pervasive::VecAdditionalExecFns;

verus! {

/// Push, stated on the deep view.
pub fn vec_push_dv<T: DeepView>(v: &mut Vec<T>, x: T)
    ensures
        final(v).deep_view() == old(v).deep_view().push(x.deep_view()),
{
    let ghost xv = x.deep_view();
    let ghost d0 = v.deep_view();
    let ghost v0 = v@;
    v.push(x);
    proof {
        assert forall|k: int| 0 <= k < d0.len() implies #[trigger] v.deep_view()[k] == d0[k] by {
            assert(v@[k] == v0[k]);
            assert(d0[k] == v0[k].deep_view());
        }
        assert(v.deep_view()[d0.len() as int] == xv);
        assert(v.deep_view() =~= d0.push(xv));
    }
}

/// In-place update, stated on the deep view.
pub fn vec_set_dv<T: DeepView>(v: &mut Vec<T>, i: usize, x: T)
    requires
        i < old(v)@.len(),
    ensures
        final(v).deep_view() == old(v).deep_view().update(i as int, x.deep_view()),
{
    let ghost xv = x.deep_view();
    let ghost d0 = v.deep_view();
    let ghost v0 = v@;
    v.set(i, x);
    proof {
        assert forall|k: int|
            0 <= k < d0.len() && k != i implies #[trigger] v.deep_view()[k] == d0[k] by {
            assert(v@[k] == v0[k]);
            assert(d0[k] == v0[k].deep_view());
        }
        assert(v.deep_view()[i as int] == xv);
        assert(v.deep_view() =~= d0.update(i as int, xv));
    }
}

/// Equality of key paths, decided segment by segment on character
/// sequences.
pub fn key_path_eq(a: &Vec<String>, b: &Vec<String>) -> (r: bool)
    ensures
        r == (a.deep_view() == b.deep_view()),
{
    if a.len() != b.len() {
        assert(a.deep_view().len() == a@.len());
        assert(b.deep_view().len() == b@.len());
        return false;
    }
    let mut i: usize = 0;
    while i < a.len()
        invariant
            i <= a.len(),
            a.len() == b.len(),
            a.deep_view().len() == a@.len(),
            b.deep_view().len() == b@.len(),
            forall|k: int| 0 <= k < i ==> a.deep_view()[k] == b.deep_view()[k],
        decreases a.len() - i,
    {
        assert(a.deep_view()[i as int] == a@[i as int]@);
        assert(b.deep_view()[i as int] == b@[i as int]@);
        if !a[i].eq(&b[i]) {
            return false;
        }
        i += 1;
    }
    assert(a.deep_view() =~= b.deep_view());
    true
}

/// A segment-exact copy of a key path.
pub fn clone_key_path(path: &Vec<String>) -> (r: Vec<String>)
    ensures
        r.deep_view() == path.deep_view(),
{
    let mut out: Vec<String> = Vec::new();
    let mut i: usize = 0;
    while i < path.len()
        invariant
            i <= path@.len(),
            out.deep_view().len() == i,
            forall|k: int| 0 <= k < i ==> out.deep_view()[k] == path.deep_view()[k],
        decreases path@.len() - i,
    {
        assert(path.deep_view()[i as int] == path@[i as int]@);
        let ghost d0 = out.deep_view();
        vec_push_dv(&mut out, path[i].clone());
        i += 1;
    }
    assert(out.deep_view() =~= path.deep_view());
    out
}

/// The key path of a child key under a prefix.
pub fn child_path(prefix: &Vec<String>, name: &String) -> (r: Vec<String>)
    ensures
        r.deep_view() == prefix.deep_view().push(name@),
{
    let mut r = clone_key_path(prefix);
    vec_push_dv(&mut r, name.clone());
    r
}

} // verus!
