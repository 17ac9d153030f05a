//! What is read of a transcript is what was there, and nothing else is touched.
use vstd::prelude::*;
use crate::channel::{
    State, challenge, challenges, longest, read_f, read_fs, read_len, read_list, read_points,
    read_u, require,
};

verus! {

/// The words, the field elements, the points and the challenges that are left of a state,
/// with what was taken of each.
pub open spec fn taken(
    before: State,
    u: Seq<int>,
    f: Seq<int>,
    g: Seq<int>,
    ch: Seq<int>,
    after: State,
) -> bool {
    &&& before.u == u + after.u
    &&& before.f == f + after.f
    &&& before.g == g + after.g
    &&& before.ch == ch + after.ch
    &&& before.ok && after.ok
}

/// A reading that succeeds gives what was in front, leaves the rest, and asks for no more than
/// there is; a length is moreover within its bounds.
pub proof fn law_read(st: State, n: int, least: int)
    requires
        0 <= n,
        forall|i: int| 0 <= i < st.u.len() ==> 0 <= #[trigger] st.u[i],
    ensures
        ({
            let none = Seq::<int>::empty();
            let (u, x) = read_u(st);
            let (f, y) = read_f(st);
            let (fs, ys) = read_fs(st, n);
            let (c, z) = challenge(st);
            let (cs, zs) = challenges(st, n);
            let (l, k) = read_len(st, least);
            &&& u.ok ==> taken(st, seq![x], none, none, none, u)
            &&& f.ok ==> taken(st, none, seq![y], none, none, f)
            &&& fs.ok ==> taken(st, none, ys, none, none, fs) && ys.len() == n
            &&& c.ok ==> taken(st, none, none, none, seq![z], c)
            &&& cs.ok ==> taken(st, none, none, none, zs, cs) && zs.len() == n
            &&& l.ok ==> taken(st, seq![k], none, none, none, l) && least <= k <= longest()
        }),
{
    let (u, x) = read_u(st);
    let (f, y) = read_f(st);
    let (fs, ys) = read_fs(st, n);
    let (c, z) = challenge(st);
    let (cs, zs) = challenges(st, n);
    let (l, k) = read_len(st, least);
    let none = Seq::<int>::empty();
    assert(none + st.u =~= st.u && none + st.f =~= st.f);
    assert(none + st.g =~= st.g && none + st.ch =~= st.ch);
    if u.ok {
        assert(st.u =~= seq![x] + u.u);
    }
    if f.ok {
        assert(st.f =~= seq![y] + f.f);
    }
    if fs.ok {
        assert(st.f =~= ys + fs.f);
    }
    if c.ok {
        assert(st.ch =~= seq![z] + c.ch);
    }
    if cs.ok {
        assert(st.ch =~= zs + cs.ch);
    }
    if l.ok {
        assert(st.u =~= seq![k] + l.u);
    }
}

/// A list that is read has the length that stands in front of it, and so have points.
pub proof fn law_read_list(st: State)
    requires
        forall|i: int| 0 <= i < st.u.len() ==> 0 <= #[trigger] st.u[i],
    ensures
        ({
            let none = Seq::<int>::empty();
            let (f, v) = read_list(st);
            let (g, p) = read_points(st);
            &&& f.ok ==> taken(st, seq![v.len() as int], v, none, none, f)
            &&& g.ok ==> taken(st, seq![p.len() as int], none, p, none, g)
        }),
{
    let (f, v) = read_list(st);
    let (g, p) = read_points(st);
    let none = Seq::<int>::empty();
    assert(none + st.f =~= st.f && none + st.g =~= st.g && none + st.ch =~= st.ch);
    if f.ok {
        assert(st.u =~= seq![v.len() as int] + f.u);
        assert(st.f =~= v + f.f);
    }
    if g.ok {
        assert(st.u =~= seq![p.len() as int] + g.u);
        assert(st.g =~= p + g.g);
    }
}

/// A reading fails only where what it asks for is not there, or where one failed before.
pub proof fn law_read_fails(st: State, n: int, least: int, holds: bool)
    requires
        0 <= n,
        st.ok,
    ensures
        !read_u(st).0.ok ==> st.u.len() == 0,
        !read_f(st).0.ok ==> st.f.len() == 0,
        !read_fs(st, n).0.ok ==> st.f.len() < n,
        !challenge(st).0.ok ==> st.ch.len() == 0,
        !challenges(st, n).0.ok ==> st.ch.len() < n,
        !read_list(st).0.ok ==> st.u.len() == 0 || st.f.len() < st.u[0],
        !read_points(st).0.ok ==> st.u.len() == 0 || st.g.len() < st.u[0],
        !read_len(st, least).0.ok ==> st.u.len() == 0 || st.u[0] < least || st.u[0] > longest(),
        require(st, holds).ok <==> holds,
{
}

} // verus!
