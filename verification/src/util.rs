//! The transcript of a proof, and inversion of many elements at once.
pub use crate::oracle::RandomOracle;
use std::collections::VecDeque;
use vstd::prelude::*;
use crate::field::{
    Fr, cong, inverse_of, invertible, lemma_inverse_from, lemma_inverse_of, lemma_invertible_mul,
    lemma_invertible_one, lemma_residue_small, values,
};
use crate::group::{G1, points};
use crate::sums::product_to;

verus! {

/// What a transcript holds and has not yet handed out: words, field elements and
/// points.
pub ghost struct Tape {
    pub u: Seq<int>,
    pub f: Seq<int>,
    pub g: Seq<int>,
}

/// A transcript: what is pushed at one end is handed out at the other.
pub struct Proof {
    u: VecDeque<usize>,
    f: VecDeque<Fr>,
    g: VecDeque<G1>,
}

impl View for Proof {
    type V = Tape;

    closed spec fn view(&self) -> Tape {
        Tape {
            u: self.u@.map_values(|x: usize| x as int),
            f: values(self.f@),
            g: points(self.g@),
        }
    }
}

impl Proof {
    /// An empty transcript.
    pub fn new() -> (out: Proof)
        ensures
            out@ == (Tape { u: Seq::empty(), f: Seq::empty(), g: Seq::empty() }),
    {
        let out = Proof { u: VecDeque::new(), f: VecDeque::new(), g: VecDeque::new() };
        assert(out@.u =~= Seq::empty());
        assert(out@.f =~= Seq::empty());
        assert(out@.g =~= Seq::empty());
        out
    }

    /// Appends a word.
    pub fn push_u(&mut self, u: usize)
        ensures
            final(self)@ == (Tape { u: old(self)@.u.push(u as int), ..old(self)@ }),
    {
        let ghost before = self@;
        self.u.push_back(u);
        assert(self@.u =~= before.u.push(u as int));
    }

    /// Appends field elements.
    pub fn push_f(&mut self, f: &[Fr])
        ensures
            final(self)@ == (Tape { f: old(self)@.f + values(f@), ..old(self)@ }),
    {
        let ghost before = self@;
        for i in 0..f.len()
            invariant
                self@ == (Tape { f: before.f + values(f@.take(i as int)), ..before }),
        {
            let ghost cur = self@.f;
            self.f.push_back(f[i]);
            assert(self@.f =~= cur.push(f@[i as int]@));
            assert(f@.take(i + 1) =~= f@.take(i as int).push(f@[i as int]));
            assert(self@.f =~= before.f + values(f@.take(i + 1)));
        }
        assert(f@.take(f@.len() as int) =~= f@);
        assert(self@.f =~= before.f + values(f@));
    }

    /// Appends a point.
    pub fn push_g(&mut self, g: G1)
        ensures
            final(self)@ == (Tape { g: old(self)@.g.push(g@), ..old(self)@ }),
    {
        let ghost before = self@;
        self.g.push_back(g);
        assert(self@.g =~= before.g.push(g@));
    }

    /// Appends points.
    pub fn push_gs(&mut self, gs: &[G1])
        ensures
            final(self)@ == (Tape { g: old(self)@.g + points(gs@), ..old(self)@ }),
    {
        let ghost before = self@;
        for i in 0..gs.len()
            invariant
                self@ == (Tape { g: before.g + points(gs@.take(i as int)), ..before }),
        {
            let ghost cur = self@.g;
            self.g.push_back(gs[i]);
            assert(self@.g =~= cur.push(gs@[i as int]@));
            assert(gs@.take(i + 1) =~= gs@.take(i as int).push(gs@[i as int]));
            assert(self@.g =~= before.g + points(gs@.take(i + 1)));
        }
        assert(gs@.take(gs@.len() as int) =~= gs@);
        assert(self@.g =~= before.g + points(gs@));
    }

    /// The next field element, if there is one.
    pub fn try_next_f(&mut self) -> (out: Option<Fr>)
        ensures
            out is Some <==> old(self)@.f.len() > 0,
            out is Some ==> out->0@ == old(self)@.f[0] && final(self)@ == (Tape {
                f: old(self)@.f.drop_first(),
                ..old(self)@
            }),
            out is None ==> final(self)@ == old(self)@,
    {
        let ghost before = self@;
        let out = self.f.pop_front();
        if out.is_some() {
            assert(self@.f =~= before.f.drop_first());
        }
        out
    }

    /// The next word, if there is one.
    pub fn try_next_u(&mut self) -> (out: Option<usize>)
        ensures
            out is Some <==> old(self)@.u.len() > 0,
            out is Some ==> out->0 == old(self)@.u[0] && final(self)@ == (Tape {
                u: old(self)@.u.drop_first(),
                ..old(self)@
            }),
            out is None ==> final(self)@ == old(self)@,
    {
        let ghost before = self@;
        let out = self.u.pop_front();
        if out.is_some() {
            assert(self@.u =~= before.u.drop_first());
        }
        out
    }

    /// The next point, if there is one.
    pub fn try_next_g(&mut self) -> (out: Option<G1>)
        ensures
            out is Some <==> old(self)@.g.len() > 0,
            out is Some ==> out->0@ == old(self)@.g[0] && final(self)@ == (Tape {
                g: old(self)@.g.drop_first(),
                ..old(self)@
            }),
            out is None ==> final(self)@ == old(self)@,
    {
        let ghost before = self@;
        let out = self.g.pop_front();
        if out.is_some() {
            assert(self@.g =~= before.g.drop_first());
        }
        out
    }

    /// The number of field elements that are left.
    pub fn remaining_f(&self) -> (out: usize)
        ensures
            out == self@.f.len(),
    {
        self.f.len()
    }

    /// The number of points that are left.
    pub fn remaining_g(&self) -> (out: usize)
        ensures
            out == self@.g.len(),
    {
        self.g.len()
    }

    /// The next field element.
    pub fn next_f(&mut self) -> (out: Fr)
        requires
            old(self)@.f.len() > 0,
        ensures
            out@ == old(self)@.f[0],
            final(self)@ == (Tape { f: old(self)@.f.drop_first(), ..old(self)@ }),
    {
        self.try_next_f().unwrap()
    }

    /// The next `n` field elements.
    pub fn next_n_fs(&mut self, n: usize) -> (out: Vec<Fr>)
        requires
            old(self)@.f.len() >= n,
        ensures
            values(out@) == old(self)@.f.take(n as int),
            final(self)@ == (Tape { f: old(self)@.f.skip(n as int), ..old(self)@ }),
    {
        let ghost before = self@;
        let mut out: Vec<Fr> = Vec::new();
        assert(before.f.skip(0) =~= before.f);
        assert(values(out@) =~= before.f.take(0));
        for i in 0..n
            invariant
                before.f.len() >= n,
                out.len() == i,
                self@ == (Tape { f: before.f.skip(i as int), ..before }),
                values(out@) == before.f.take(i as int),
        {
            let x = self.next_f();
            out.push(x);
            assert(values(out@) =~= before.f.take(i + 1));
            assert(self@.f =~= before.f.skip(i + 1));
        }
        out
    }

    /// The next word.
    pub fn next_u(&mut self) -> (out: usize)
        requires
            old(self)@.u.len() > 0,
        ensures
            out == old(self)@.u[0],
            final(self)@ == (Tape { u: old(self)@.u.drop_first(), ..old(self)@ }),
    {
        self.try_next_u().unwrap()
    }

    /// The next point.
    pub fn next_g(&mut self) -> (out: G1)
        requires
            old(self)@.g.len() > 0,
        ensures
            out@ == old(self)@.g[0],
            final(self)@ == (Tape { g: old(self)@.g.drop_first(), ..old(self)@ }),
    {
        self.try_next_g().unwrap()
    }

    /// The next `n` points.
    pub fn next_n_gs(&mut self, n: usize) -> (out: Vec<G1>)
        requires
            old(self)@.g.len() >= n,
        ensures
            points(out@) == old(self)@.g.take(n as int),
            final(self)@ == (Tape { g: old(self)@.g.skip(n as int), ..old(self)@ }),
    {
        let ghost before = self@;
        let mut out: Vec<G1> = Vec::new();
        assert(before.g.skip(0) =~= before.g);
        assert(points(out@) =~= before.g.take(0));
        for i in 0..n
            invariant
                before.g.len() >= n,
                out.len() == i,
                self@ == (Tape { g: before.g.skip(i as int), ..before }),
                points(out@) == before.g.take(i as int),
        {
            let x = self.next_g();
            out.push(x);
            assert(points(out@) =~= before.g.take(i + 1));
            assert(self@.g =~= before.g.skip(i + 1));
        }
        out
    }
}

/// A product of invertible elements is invertible.
pub proof fn lemma_product_invertible(n: int, f: spec_fn(int) -> int)
    requires
        forall|i: int| 0 <= i < n ==> invertible(#[trigger] f(i)),
    ensures
        invertible(product_to(n, f)),
    decreases n,
{
    if n <= 0 {
        lemma_invertible_one();
    } else {
        lemma_product_invertible(n - 1, f);
        assert(invertible(f(n - 1)));
        lemma_invertible_mul(product_to(n - 1, f), f(n - 1));
    }
}

/// Replaces every element by its inverse.
pub fn batch_inverse(v: &mut Vec<Fr>)
    requires
        old(v).len() > 0,
        forall|i: int| 0 <= i < old(v).len() ==> invertible((#[trigger] old(v)[i])@),
    ensures
        final(v).len() == old(v).len(),
        forall|i: int|
            0 <= i < old(v).len() ==> (#[trigger] final(v)[i])@ == inverse_of(old(v)[i]@),
{
    let ghost orig = v@;
    let ghost f = |i: int| orig[i]@;
    let len: usize = v.len();
    let mut aux: Vec<Fr> = Vec::new();
    aux.push(v[0]);
    proof {
        reveal_with_fuel(product_to, 2);
        assert(product_to(1, f) == 1 * f(0));
    }
    for i in 1..len
        invariant
            1 <= i <= len,
            len == v.len(),
            v@ == orig,
            f == (|i: int| orig[i]@),
            aux.len() == i,
            forall|j: int| 0 <= j < i ==> (#[trigger] aux[j])@ == product_to(j + 1, f),
    {
        let x = aux[i - 1] * v[i];
        assert(x@ == product_to(i + 1, f));
        aux.push(x);
    }
    proof {
        assert forall|i: int| 0 <= i < len implies invertible(#[trigger] f(i)) by {
            assert(invertible(orig[i]@));
        }
        lemma_product_invertible(len as int, f);
    }
    let mut prod = aux[len - 1].inverse().unwrap();
    proof {
        lemma_inverse_of(product_to(len as int, f));
    }
    for k in 1..len
        invariant
            1 <= k <= len,
            len == v.len(),
            len == orig.len(),
            f == (|i: int| orig[i]@),
            aux.len() == len,
            forall|j: int| 0 <= j < len ==> (#[trigger] aux[j])@ == product_to(j + 1, f),
            forall|j: int| 0 <= j <= len - k ==> v[j] == orig[j],
            forall|j: int|
                len - k < j < len ==> (#[trigger] v[j])@ == inverse_of(orig[j]@),
            cong(product_to(len - k + 1, f) * prod@, 1),
    {
        let i: usize = len - k;
        let inv = prod * aux[i - 1];
        let next = prod * v[i];
        proof {
            let p = product_to(i as int, f);
            let x = orig[i as int]@;
            assert(f(i as int) == x);
            assert(product_to(i + 1, f) == p * x);
            assert((p * x) * prod@ == x * (prod@ * p)) by (nonlinear_arith);
            assert((p * x) * prod@ == p * (prod@ * x)) by (nonlinear_arith);
            lemma_inverse_from(x, inv@);
            lemma_inverse_of(x);
            lemma_residue_small(inverse_of(x));
        }
        v.set(i, inv.canonical());
        prod = next;
    }
    proof {
        reveal_with_fuel(product_to, 2);
        let x = orig[0]@;
        assert(product_to(1, f) == 1 * f(0));
        assert(x * prod@ == product_to(1, f) * prod@);
        lemma_inverse_from(x, prod@);
        lemma_inverse_of(x);
        lemma_residue_small(inverse_of(x));
    }
    v.set(0, prod.canonical());
}

} // verus!
