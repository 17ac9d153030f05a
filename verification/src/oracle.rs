//! A source of challenges that the prover and the verifier share.
use vstd::prelude::*;
use crate::field::{Fr, values};

verus! {

/// Challenges drawn in advance and handed out in order.
pub struct RandomOracle {
    fields: Vec<Fr>,
    ints: Vec<usize>,
    fields_idx: usize,
    ints_idx: usize,
}

/// What is left of a sequence from an index on.
pub open spec fn rest<T>(s: Seq<T>, idx: int) -> Seq<T> {
    if 0 <= idx <= s.len() {
        s.skip(idx)
    } else {
        Seq::empty()
    }
}

impl View for RandomOracle {
    type V = Seq<int>;

    /// The field challenges that are left.
    closed spec fn view(&self) -> Seq<int> {
        rest(values(self.fields@), self.fields_idx as int)
    }
}

impl RandomOracle {
    /// All the field challenges.
    pub closed spec fn all(&self) -> Seq<int> {
        values(self.fields@)
    }

    /// All the integer challenges.
    pub closed spec fn all_ints(&self) -> Seq<usize> {
        self.ints@
    }

    /// The integer challenges that are left.
    pub closed spec fn ints(&self) -> Seq<usize> {
        rest(self.ints@, self.ints_idx as int)
    }

    /// An oracle that hands out the given draws.
    pub fn new(fields: Vec<Fr>, ints: Vec<usize>) -> (out: RandomOracle)
        ensures
            out.all() == values(fields@),
            out@ == values(fields@),
            out.all_ints() == ints@,
            out.ints() == ints@,
    {
        let out = RandomOracle { fields, ints, fields_idx: 0, ints_idx: 0 };
        assert(out@ =~= values(fields@));
        assert(out.ints() =~= ints@);
        out
    }

    /// The number of field challenges that are left.
    pub fn remaining(&self) -> (out: usize)
        ensures
            out == self@.len(),
    {
        if self.fields_idx <= self.fields.len() {
            self.fields.len() - self.fields_idx
        } else {
            0
        }
    }

    /// The next field challenge.
    pub fn next_field(&mut self) -> (out: Fr)
        requires
            old(self)@.len() > 0,
        ensures
            out@ == old(self)@[0],
            final(self)@ == old(self)@.drop_first(),
            final(self).all() == old(self).all(),
            final(self).all_ints() == old(self).all_ints(),
            final(self).ints() == old(self).ints(),
    {
        let ghost before = self@;
        assert(self.fields_idx < self.fields.len());
        let out = self.fields[self.fields_idx];
        self.fields_idx = self.fields_idx + 1;
        assert(self@ =~= before.drop_first());
        out
    }

    /// The next `n` field challenges.
    pub fn next_n_fields(&mut self, n: usize) -> (out: Vec<Fr>)
        requires
            old(self)@.len() >= n,
        ensures
            values(out@) == old(self)@.take(n as int),
            final(self)@ == old(self)@.skip(n as int),
            final(self).all() == old(self).all(),
            final(self).all_ints() == old(self).all_ints(),
            final(self).ints() == old(self).ints(),
    {
        let ghost before = self@;
        let mut out: Vec<Fr> = Vec::new();
        for i in 0..n
            invariant
                before.len() >= n,
                out.len() == i,
                self@ == before.skip(i as int),
                values(out@) == before.take(i as int),
                self.all() == old(self).all(),
                self.all_ints() == old(self).all_ints(),
                self.ints() == old(self).ints(),
        {
            let x = self.next_field();
            out.push(x);
            assert(values(out@) =~= before.take(i + 1));
            assert(self@ =~= before.skip(i + 1));
        }
        out
    }

    /// The next integer challenge.
    pub fn next_int(&mut self) -> (out: usize)
        requires
            old(self).ints().len() > 0,
        ensures
            out == old(self).ints()[0],
            final(self).ints() == old(self).ints().drop_first(),
            final(self).all() == old(self).all(),
            final(self).all_ints() == old(self).all_ints(),
            final(self)@ == old(self)@,
    {
        let ghost before = self.ints();
        assert(self.ints_idx < self.ints.len());
        let out: usize = self.ints[self.ints_idx];
        self.ints_idx = self.ints_idx + 1;
        assert(self.ints() =~= before.drop_first());
        out
    }

    /// The next `n` integer challenges.
    pub fn next_n_ints(&mut self, n: usize) -> (out: Vec<usize>)
        requires
            old(self).ints().len() >= n,
        ensures
            out@ == old(self).ints().take(n as int),
            final(self).ints() == old(self).ints().skip(n as int),
            final(self).all() == old(self).all(),
            final(self).all_ints() == old(self).all_ints(),
            final(self)@ == old(self)@,
    {
        let ghost before = self.ints();
        let mut out: Vec<usize> = Vec::new();
        for i in 0..n
            invariant
                before.len() >= n,
                out.len() == i,
                self.ints() == before.skip(i as int),
                out@ == before.take(i as int),
                self.all() == old(self).all(),
                self.all_ints() == old(self).all_ints(),
                self@ == old(self)@,
        {
            let x: usize = self.next_int();
            out.push(x);
            assert(out@ =~= before.take(i + 1));
            assert(self.ints() =~= before.skip(i + 1));
        }
        out
    }

    /// Starts handing out the challenges from the first one again.
    pub fn restart(&mut self)
        ensures
            final(self)@ == old(self).all(),
            final(self).ints() == old(self).all_ints(),
            final(self).all() == old(self).all(),
            final(self).all_ints() == old(self).all_ints(),
    {
        self.fields_idx = 0;
        self.ints_idx = 0;
        assert(self@ =~= self.all());
        assert(self.ints() =~= self.all_ints());
    }
}

} // verus!
