//! Download progress: the bytes received for each part, and their total.
use vstd::prelude::*;

verus! {

/// The sum of a sequence of byte counts.
pub open spec fn total_of(s: Seq<u64>) -> nat
    decreases s.len(),
{
    if s.len() == 0 {
        0
    } else {
        total_of(s.drop_last()) + s.last() as nat
    }
}

/// Bytes received so far, per part of a download.
pub struct Progress {
    parts: Vec<u64>,
}

impl View for Progress {
    type V = Seq<u64>;

    closed spec fn view(&self) -> Seq<u64> {
        self.parts@
    }
}

proof fn lemma_total_zeros(s: Seq<u64>)
    requires
        forall|i: int| 0 <= i < s.len() ==> s[i] == 0,
    ensures
        total_of(s) == 0,
    decreases s.len(),
{
    if s.len() > 0 {
        lemma_total_zeros(s.drop_last());
    }
}

/// Raising one count raises the total by as much.
pub proof fn lemma_total_update(s: Seq<u64>, i: int, v: u64)
    requires
        0 <= i < s.len(),
    ensures
        total_of(s.update(i, v)) + s[i] == total_of(s) + v,
    decreases s.len(),
{
    if i < s.len() - 1 {
        lemma_total_update(s.drop_last(), i, v);
        assert(s.update(i, v).drop_last() =~= s.drop_last().update(i, v));
    } else {
        assert(s.update(i, v).drop_last() =~= s.drop_last());
    }
}

/// Each count is at most the total.
proof fn lemma_total_bounds(s: Seq<u64>, i: int)
    requires
        0 <= i < s.len(),
    ensures
        s[i] <= total_of(s),
    decreases s.len(),
{
    if i < s.len() - 1 {
        lemma_total_bounds(s.drop_last(), i);
    }
}

impl Progress {
    /// The total stays a `u64`.
    #[verifier::type_invariant]
    spec fn total_fits(&self) -> bool {
        total_of(self.parts@) <= u64::MAX
    }

    /// The total number of bytes received.
    pub open spec fn total(&self) -> nat {
        total_of(self@)
    }

    /// Progress for `parts` parts, none of them started.
    pub fn new(parts: usize) -> (p: Progress)
        ensures
            p@.len() == parts,
            forall|i: int| 0 <= i < parts ==> p@[i] == 0,
            p.total() == 0,
    {
        let mut v: Vec<u64> = Vec::new();
        let mut i: usize = 0;
        while i < parts
            invariant
                i <= parts,
                v@.len() == i,
                forall|j: int| 0 <= j < i ==> v@[j] == 0,
            decreases parts - i,
        {
            v.push(0);
            i = i + 1;
        }
        proof {
            lemma_total_zeros(v@);
        }
        Progress { parts: v }
    }

    /// The number of parts.
    pub fn parts(&self) -> (n: usize)
        ensures
            n == self@.len(),
    {
        self.parts.len()
    }

    /// Records that `bytes` more bytes of part `part` arrived. The new total
    /// must still be a `u64`.
    pub fn record(&mut self, part: usize, bytes: u64)
        requires
            part < old(self)@.len(),
            old(self).total() + bytes <= u64::MAX,
        ensures
            final(self)@ == old(self)@.update(part as int, (old(self)@[part as int] + bytes) as u64),
            final(self).total() == old(self).total() + bytes,
    {
        proof {
            lemma_total_bounds(self.parts@, part as int);
        }
        let v = self.parts[part] + bytes;
        proof {
            lemma_total_update(self.parts@, part as int, v);
        }
        let mut parts: Vec<u64> = Vec::new();
        std::mem::swap(&mut parts, &mut self.parts);
        parts.set(part, v);
        self.parts = parts;
    }

    /// The bytes received for part `part`.
    pub fn received(&self, part: usize) -> (n: u64)
        requires
            part < self@.len(),
        ensures
            n == self@[part as int],
    {
        self.parts[part]
    }

    /// The total number of bytes received, over all parts.
    pub fn downloaded(&self) -> (n: u64)
        ensures
            n == self.total(),
    {
        proof {
            use_type_invariant(self);
        }
        let mut sum: u64 = 0;
        let mut i: usize = 0;
        while i < self.parts.len()
            invariant
                i <= self.parts@.len(),
                sum == total_of(self.parts@.take(i as int)),
                total_of(self.parts@) <= u64::MAX,
            decreases self.parts@.len() - i,
        {
            proof {
                assert(self.parts@.take(i + 1).drop_last() =~= self.parts@.take(i as int));
                lemma_total_bounds(self.parts@.take(i + 1), i as int);
                lemma_total_prefix(self.parts@, i + 1);
            }
            sum = sum + self.parts[i];
            i = i + 1;
        }
        assert(self.parts@.take(i as int) =~= self.parts@);
        sum
    }
}

/// A prefix sums to at most the whole.
proof fn lemma_total_prefix(s: Seq<u64>, k: int)
    requires
        0 <= k <= s.len(),
    ensures
        total_of(s.take(k)) <= total_of(s),
    decreases s.len() - k,
{
    if k < s.len() {
        lemma_total_prefix(s, k + 1);
        assert(s.take(k + 1).drop_last() =~= s.take(k));
    } else {
        assert(s.take(k) =~= s);
    }
}

} // verus!
