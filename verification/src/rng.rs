use vstd::prelude::*;

verus! {

/// One step of the xorshift64 generator (shifts 13, 7, 17).
pub open spec fn xorshift(x: u64) -> u64 {
    let a = x ^ (x << 13u64);
    let b = a ^ (a >> 7u64);
    b ^ (b << 17u64)
}

/// The state a generator starts from: the seed, or a fixed odd constant for seed 0,
/// on which xorshift would stay at 0 for ever.
pub open spec fn start_state(seed: u64) -> u64 {
    if seed == 0 {
        0x9E37_79B9_7F4A_7C15u64
    } else {
        seed
    }
}

/// A seed from the time since the Unix epoch in nanoseconds (its low 64 bits), or a
/// fixed seed when the clock reads before the epoch.
pub fn seed_from_clock(since_epoch_nanos: Option<u128>) -> (seed: u64)
    ensures
        seed == match since_epoch_nanos {
            Some(n) => n as u64,
            None => 0x1234_5678u64,
        },
{
    match since_epoch_nanos {
        Some(n) => n as u64,
        None => 0x1234_5678,
    }
}

/// `s` with the items at `i` and `j` exchanged.
pub open spec fn swap_at<T>(s: Seq<T>, i: int, j: int) -> Seq<T> {
    s.update(i, s[j]).update(j, s[i])
}

/// Fisher-Yates from position `i` down to 1, drawing each index from generator state `st`.
pub open spec fn shuffle_from<T>(s: Seq<T>, st: u64, i: int) -> Seq<T>
    decreases i,
{
    if i <= 0 {
        s
    } else {
        let x = xorshift(st);
        shuffle_from(swap_at(s, i, (x % ((i + 1) as u64)) as int), x, i - 1)
    }
}

/// The generator state after `n` steps.
pub open spec fn state_after(st: u64, n: nat) -> u64
    decreases n,
{
    if n == 0 {
        st
    } else {
        state_after(xorshift(st), (n - 1) as nat)
    }
}

pub proof fn lemma_swap_multiset<T>(s: Seq<T>, i: int, j: int)
    requires
        0 <= i < s.len(),
        0 <= j < s.len(),
    ensures
        swap_at(s, i, j).to_multiset() =~= s.to_multiset(),
        swap_at(s, i, j).len() == s.len(),
{
    broadcast use vstd::seq_lib::to_multiset_update;
    broadcast use vstd::multiset::group_multiset_axioms;

    let s1 = s.update(i, s[j]);
    assert(s1.to_multiset() == s.to_multiset().insert(s[j]).remove(s[i]));
    assert(swap_at(s, i, j).to_multiset() == s1.to_multiset().insert(s[i]).remove(s1[j]));
    if i == j {
        assert(swap_at(s, i, j) =~= s);
    } else {
        assert(s1[j] == s[j]);
        s.to_multiset_ensures();
        assert(s.contains(s[i]));
        assert(s.to_multiset().count(s[i]) > 0);
    }
}

/// Shuffling only reorders the items.
pub proof fn lemma_shuffle_permutes<T>(s: Seq<T>, st: u64, i: int)
    requires
        i < s.len(),
        i < u64::MAX,
    ensures
        shuffle_from(s, st, i).to_multiset() =~= s.to_multiset(),
        shuffle_from(s, st, i).len() == s.len(),
    decreases i,
{
    if i > 0 {
        let x = xorshift(st);
        let j = (x % ((i + 1) as u64)) as int;
        assert(j < i + 1);
        lemma_swap_multiset(s, i, j);
        lemma_shuffle_permutes(swap_at(s, i, j), x, i - 1);
    }
}

/// `<[T]>::swap` on the items of a vector.
#[verifier::external_body]
fn vec_swap<T>(v: &mut Vec<T>, i: usize, j: usize)
    requires
        i < old(v).len(),
        j < old(v).len(),
    ensures
        final(v)@ == swap_at(old(v)@, i as int, j as int),
{
    v.swap(i, j)
}

/// A small xorshift64 pseudo-random generator.
pub struct Rng {
    state: u64,
}

impl Rng {
    pub closed spec fn state(&self) -> u64 {
        self.state
    }

    pub fn new(seed: u64) -> (r: Rng)
        ensures
            r.state() == start_state(seed),
    {
        if seed == 0 {
            Rng { state: 0x9E37_79B9_7F4A_7C15 }
        } else {
            Rng { state: seed }
        }
    }

    /// Advances the generator and returns its new state.
    pub fn next_u64(&mut self) -> (r: u64)
        ensures
            r == xorshift(old(self).state()),
            final(self).state() == r,
    {
        let mut x = self.state;
        x = x ^ (x << 13u64);
        x = x ^ (x >> 7u64);
        x = x ^ (x << 17u64);
        self.state = x;
        x
    }

    /// Shuffles `v` in place (Fisher-Yates).
    pub fn shuffle<T>(&mut self, v: &mut Vec<T>)
        ensures
            final(v)@.len() == old(v)@.len(),
            final(v)@.to_multiset() == old(v)@.to_multiset(),
            final(v)@ == shuffle_from(old(v)@, old(self).state(), old(v)@.len() - 1),
            final(self).state() == state_after(
                old(self).state(),
                if old(v)@.len() == 0 {
                    0
                } else {
                    (old(v)@.len() - 1) as nat
                },
            ),
    {
        let ghost v0 = v@;
        let ghost st0 = self.state;
        let n = v.len();
        proof {
            if n > 0 {
                lemma_shuffle_permutes(v0, st0, n - 1);
            }
        }
        if n == 0 {
            return;
        }
        let mut i: usize = n - 1;
        while i > 0
            invariant
                v@.len() == n,
                n == v0.len(),
                i < n,
                shuffle_from(v@, self.state, i as int) == shuffle_from(v0, st0, n - 1),
                state_after(self.state, i as nat) == state_after(st0, (n - 1) as nat),
            decreases i,
        {
            let x = self.next_u64();
            let j = (x % (i as u64 + 1)) as usize;
            vec_swap(v, i, j);
            i -= 1;
        }
    }
}

} // verus!
