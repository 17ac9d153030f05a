//! What a verifier reads: a transcript and the shared challenges.
//!
//! A verifier runs to its end whatever it reads. A value that is missing or a
//! condition that fails is remembered, and decides the verdict.
use vstd::prelude::*;
use crate::field::{Fr, values};
use crate::group::{G1, points};
use crate::kzg::MkzgCommit;
use crate::util::{Proof, RandomOracle};

verus! {

/// The transcript and the challenges that are left, and whether all that was
/// asked of them so far was there and held.
pub ghost struct State {
    pub u: Seq<int>,
    pub f: Seq<int>,
    pub g: Seq<int>,
    pub ch: Seq<int>,
    pub ok: bool,
}

/// The state after a condition was asked for.
pub open spec fn require(st: State, holds: bool) -> State {
    State { ok: st.ok && holds, ..st }
}

/// Reads a word; zero if there is none.
pub open spec fn read_u(st: State) -> (State, int) {
    if st.u.len() > 0 {
        (State { u: st.u.drop_first(), ..st }, st.u[0])
    } else {
        (State { ok: false, ..st }, 0)
    }
}

/// Reads a field element; zero if there is none.
pub open spec fn read_f(st: State) -> (State, int) {
    if st.f.len() > 0 {
        (State { f: st.f.drop_first(), ..st }, st.f[0])
    } else {
        (State { ok: false, ..st }, 0)
    }
}

/// Reads `n` field elements; zeros if there are fewer.
pub open spec fn read_fs(st: State, n: int) -> (State, Seq<int>) {
    if st.f.len() >= n {
        (State { f: st.f.skip(n), ..st }, st.f.take(n))
    } else {
        (State { ok: false, ..st }, Seq::new(n as nat, |i: int| 0int))
    }
}

/// Reads a word, and as many field elements as it says; none if there are fewer.
pub open spec fn read_list(st: State) -> (State, Seq<int>) {
    let (st1, n) = read_u(st);
    if st1.f.len() >= n {
        (State { f: st1.f.skip(n), ..st1 }, st1.f.take(n))
    } else {
        (State { ok: false, ..st1 }, Seq::empty())
    }
}

/// Reads a word, and as many points as it says; none if there are fewer.
pub open spec fn read_points(st: State) -> (State, Seq<int>) {
    let (st1, n) = read_u(st);
    if st1.g.len() >= n {
        (State { g: st1.g.skip(n), ..st1 }, st1.g.take(n))
    } else {
        (State { ok: false, ..st1 }, Seq::empty())
    }
}

/// The longest length for which a power of two of at least that size is a word.
pub open spec fn longest() -> int {
    usize::MAX / 2 + 1
}

/// Reads a length, which has to be at least `least` and not too long; two if it
/// is not.
pub open spec fn read_len(st: State, least: int) -> (State, int) {
    let (st1, n) = read_u(st);
    if least <= n <= longest() {
        (st1, n)
    } else {
        (State { ok: false, ..st1 }, 2)
    }
}

/// The next challenge; zero if there is none.
pub open spec fn challenge(st: State) -> (State, int) {
    if st.ch.len() > 0 {
        (State { ch: st.ch.drop_first(), ..st }, st.ch[0])
    } else {
        (State { ok: false, ..st }, 0)
    }
}

/// The next `n` challenges; zeros if there are fewer.
pub open spec fn challenges(st: State, n: int) -> (State, Seq<int>) {
    if st.ch.len() >= n {
        (State { ch: st.ch.skip(n), ..st }, st.ch.take(n))
    } else {
        (State { ok: false, ..st }, Seq::new(n as nat, |i: int| 0int))
    }
}

/// A transcript and challenges that are being read.
pub struct Channel {
    pub proof: Proof,
    pub ro: RandomOracle,
    pub ok: bool,
}

impl View for Channel {
    type V = State;

    open spec fn view(&self) -> State {
        State {
            u: self.proof@.u,
            f: self.proof@.f,
            g: self.proof@.g,
            ch: self.ro@,
            ok: self.ok,
        }
    }
}

impl Channel {
    /// The challenges are those of another channel, whatever is left of them.
    pub open spec fn same_oracle(&self, other: &Channel) -> bool {
        &&& self.ro.all() == other.ro.all()
        &&& self.ro.all_ints() == other.ro.all_ints()
        &&& self.ro.ints() == other.ro.ints()
    }

    /// Asks for a condition.
    pub fn require(&mut self, holds: bool)
        ensures
            final(self)@ == require(old(self)@, holds),
            final(self).same_oracle(old(self)),
    {
        self.ok = self.ok && holds;
    }

    /// Reads a word.
    pub fn read_u(&mut self) -> (out: usize)
        ensures
            (final(self)@, out as int) == read_u(old(self)@),
            final(self).same_oracle(old(self)),
    {
        match self.proof.try_next_u() {
            Some(u) => u,
            None => {
                self.ok = false;
                0
            },
        }
    }

    /// Reads a field element.
    pub fn read_f(&mut self) -> (out: Fr)
        ensures
            (final(self)@, out@) == read_f(old(self)@),
            final(self).same_oracle(old(self)),
    {
        match self.proof.try_next_f() {
            Some(f) => f,
            None => {
                self.ok = false;
                Fr::zero()
            },
        }
    }

    /// Reads `n` field elements.
    pub fn read_fs(&mut self, n: usize) -> (out: Vec<Fr>)
        ensures
            (final(self)@, values(out@)) == read_fs(old(self)@, n as int),
            out.len() == n,
            final(self).same_oracle(old(self)),
    {
        if self.proof.remaining_f() >= n {
            let out = self.proof.next_n_fs(n);
            assert(values(out@).len() == out.len());
            out
        } else {
            self.ok = false;
            let out = crate::field::filled(Fr::zero(), n);
            assert(values(out@) =~= Seq::new(n as nat, |i: int| 0int));
            out
        }
    }

    /// Reads a word, and as many field elements as it says.
    pub fn read_list(&mut self) -> (out: Vec<Fr>)
        ensures
            (final(self)@, values(out@)) == read_list(old(self)@),
            final(self).same_oracle(old(self)),
    {
        let n: usize = self.read_u();
        if self.proof.remaining_f() >= n {
            self.proof.next_n_fs(n)
        } else {
            self.ok = false;
            let out: Vec<Fr> = Vec::new();
            assert(values(out@) =~= Seq::empty());
            out
        }
    }

    /// Reads a word, and as many points as it says.
    pub fn read_points(&mut self) -> (out: Vec<G1>)
        ensures
            (final(self)@, points(out@)) == read_points(old(self)@),
            final(self).same_oracle(old(self)),
    {
        let n: usize = self.read_u();
        if self.proof.remaining_g() >= n {
            self.proof.next_n_gs(n)
        } else {
            self.ok = false;
            let out: Vec<G1> = Vec::new();
            assert(points(out@) =~= Seq::empty());
            out
        }
    }

    /// Reads a commitment.
    pub fn read_commit(&mut self) -> (out: MkzgCommit)
        ensures
            (final(self)@, out@) == read_points(old(self)@),
            final(self).same_oracle(old(self)),
    {
        MkzgCommit(self.read_points())
    }

    /// Reads a length of at least `least`.
    pub fn read_len(&mut self, least: usize) -> (out: usize)
        requires
            least <= 2,
        ensures
            (final(self)@, out as int) == read_len(old(self)@, least as int),
            least <= out <= longest(),
            final(self).same_oracle(old(self)),
    {
        let n: usize = self.read_u();
        if least <= n && n <= usize::MAX / 2 + 1 {
            n
        } else {
            self.ok = false;
            2
        }
    }

    /// The next challenge.
    pub fn challenge(&mut self) -> (out: Fr)
        ensures
            (final(self)@, out@) == challenge(old(self)@),
            final(self).same_oracle(old(self)),
    {
        if self.ro.remaining() > 0 {
            self.ro.next_field()
        } else {
            self.ok = false;
            Fr::zero()
        }
    }

    /// The next `n` challenges.
    pub fn challenges(&mut self, n: usize) -> (out: Vec<Fr>)
        ensures
            (final(self)@, values(out@)) == challenges(old(self)@, n as int),
            out.len() == n,
            final(self).same_oracle(old(self)),
    {
        if self.ro.remaining() >= n {
            let out = self.ro.next_n_fields(n);
            assert(values(out@).len() == out.len());
            out
        } else {
            self.ok = false;
            let out = crate::field::filled(Fr::zero(), n);
            assert(values(out@) =~= Seq::new(n as nat, |i: int| 0int));
            out
        }
    }
}

} // verus!
