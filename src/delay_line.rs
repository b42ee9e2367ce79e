use vstd::prelude::*;
use vstd::arithmetic::div_mod::{
    lemma_mod_add_multiples_vanish, lemma_mod_bound, lemma_mod_equivalence,
    lemma_mod_multiples_vanish, lemma_mod_self_0, lemma_mod_sub_multiples_vanish, lemma_small_mod,
};
use vstd::arithmetic::power2::{
    lemma_pow2_adds, lemma_pow2_pos, lemma_pow2_strictly_increases, lemma_pow2_unfold, pow2,
};
use vstd::bits::{low_bits_mask, lemma_usize_low_bits_mask_is_mod, lemma_usize_pow2_no_overflow};

verus! {

/// `n` is a power of two: 1, 2, 4, 8, ...
pub open spec fn is_power_of_two(n: int) -> bool {
    exists|k: nat| pow2(k) == n
}

/// `r` is the least power of two that is at least `length` (and at least one).
pub open spec fn is_rounded_capacity(r: int, length: int) -> bool {
    exists|k: nat| #[trigger] pow2(k) == r && r >= length && (k == 0 || pow2((k - 1) as nat) < length)
}

/// Rounds a requested length up to the next power of two, with a minimum of one.
pub fn adjust_length_to_power_of_two(length: usize) -> (r: usize)
    requires
        length <= usize::MAX / 2 + 1,
    ensures
        is_rounded_capacity(r as int, length as int),
        is_power_of_two(r as int),
        r >= 1,
{
    proof {
        vstd::arithmetic::power2::lemma2_to64();
    }
    if length == 0 || length == 1 {
        return 1;
    }
    let mut power_of_two: usize = 1;
    let ghost mut k: nat = 0;
    while power_of_two < length
        invariant
            power_of_two as int == pow2(k),
            1 <= power_of_two < 2 * length,
            k == 0 || pow2((k - 1) as nat) < length,
            length <= usize::MAX / 2 + 1,
        decreases 2 * length - power_of_two,
    {
        proof {
            lemma_pow2_unfold(k + 1);
        }
        power_of_two = power_of_two * 2;
        proof {
            k = k + 1;
        }
    }
    proof {
        lemma_pow2_pos(k);
    }
    power_of_two
}

/// The ages held after `value` is pushed onto a buffer holding `ages`: the new
/// value becomes age 0, every other sample grows one step older and the oldest
/// one leaves.
pub open spec fn pushed<T>(ages: Seq<T>, value: T) -> Seq<T> {
    seq![value] + ages.drop_last()
}

/// The ages held after `values` are pushed in order onto a buffer holding `ages`.
pub open spec fn after_pushes<T>(ages: Seq<T>, values: Seq<T>) -> Seq<T>
    decreases values.len(),
{
    if values.len() == 0 {
        ages
    } else {
        pushed(after_pushes(ages, values.drop_last()), values.last())
    }
}

/// Pushing never changes the capacity.
pub proof fn lemma_pushes_keep_capacity<T>(ages: Seq<T>, values: Seq<T>)
    requires
        ages.len() >= 1,
    ensures
        after_pushes(ages, values).len() == ages.len(),
    decreases values.len(),
{
    if values.len() > 0 {
        lemma_pushes_keep_capacity(ages, values.drop_last());
    }
}

/// After `values` are pushed, age `k` holds the value pushed `k` pushes before
/// the last one; an age that no push reached yet holds what the buffer held
/// before, grown older by the number of pushes.
pub proof fn lemma_read_after_pushes<T>(ages: Seq<T>, values: Seq<T>, age: int)
    requires
        0 <= age < ages.len(),
    ensures
        after_pushes(ages, values)[age] == if age < values.len() {
            values[values.len() - 1 - age]
        } else {
            ages[age - values.len()]
        },
    decreases values.len(),
{
    if values.len() > 0 {
        let rest = values.drop_last();
        lemma_pushes_keep_capacity(ages, rest);
        if age > 0 {
            lemma_read_after_pushes(ages, rest, age - 1);
        }
    }
}

/// A fresh buffer, silent in every slot, reads silence at every age that the
/// pushes so far have not reached: all of them until `capacity` values were pushed.
pub proof fn lemma_fresh_buffer_reads_silence<T>(
    capacity: nat,
    silence: T,
    values: Seq<T>,
    age: int,
)
    requires
        values.len() <= age < capacity,
    ensures
        after_pushes(Seq::new(capacity, |_i: int| silence), values)[age] == silence,
{
    lemma_read_after_pushes(Seq::new(capacity, |_i: int| silence), values, age);
}

/// Round trip: after pushing `v0, ..., v(n-1)`, age `k < n` reads `v(n-1-k)`,
/// so age 0 is the most recent value.
pub proof fn lemma_round_trip<T>(ages: Seq<T>, values: Seq<T>, age: int)
    requires
        0 <= age < ages.len(),
        age < values.len(),
    ensures
        after_pushes(ages, values)[age] == values[values.len() - 1 - age],
{
    lemma_read_after_pushes(ages, values, age);
}

/// Wrap-around: after more pushes than the capacity, age 0 still reads the
/// value pushed last, however many pushes went round.
pub proof fn lemma_wrap_around<T>(ages: Seq<T>, values: Seq<T>)
    requires
        ages.len() >= 1,
        values.len() >= ages.len(),
    ensures
        after_pushes(ages, values)[0] == values.last(),
{
    lemma_read_after_pushes(ages, values, 0);
}

/// A ring buffer of samples addressed by age: age 0 is the sample pushed last.
pub trait CircularBuffer<T: Default>: Sized {
    /// The samples by age, from the newest (age 0) to the oldest.
    spec fn ages(&self) -> Seq<T>;

    /// The internal invariant of the buffer.
    spec fn well_formed(&self) -> bool;

    /// The value every slot holds after a clear: the default of the sample
    /// type, zero for numbers.
    spec fn silence(&self) -> T;

    /// The number of slots.
    fn size(&self) -> (r: usize)
        requires
            self.well_formed(),
        ensures
            r == self.ages().len(),
            r >= 1,
    ;

    /// Writes `value` as the new age 0; the oldest sample is overwritten.
    fn push(&mut self, value: T)
        requires
            old(self).well_formed(),
        ensures
            final(self).well_formed(),
            final(self).ages() == pushed(old(self).ages(), value),
            final(self).silence() == old(self).silence(),
    ;

    /// The oldest sample.
    fn back(&self) -> (r: &T)
        requires
            self.well_formed(),
        ensures
            self.ages().len() >= 1,
            *r == self.ages().last(),
    ;

    /// Sets every slot to silence; the capacity stays.
    fn clear(&mut self)
        requires
            old(self).well_formed(),
        ensures
            final(self).well_formed(),
            final(self).ages().len() == old(self).ages().len(),
            final(self).silence() == old(self).silence(),
            call_ensures(T::default, (), final(self).silence()),
            forall|age: int|
                0 <= age < final(self).ages().len() ==> #[trigger] final(self).ages()[age]
                    == old(self).silence(),
    ;
}

/// A delay line whose capacity is a power of two, so that every slot is found
/// from the write cursor by a subtraction and a bit mask.
pub struct DelayLine<T> {
    buffer: Vec<T>,
    write_index: usize,
    mask: usize,
    silence: T,
    bits: Ghost<nat>,
}

/// Reducing a wrapped difference with the mask gives the true difference
/// modulo the capacity `pow2(bits)`.
proof fn lemma_masked_slot(d: usize, a: int, bits: nat)
    requires
        bits < usize::BITS,
        d as int == a || d as int == a + usize::MAX + 1,
    ensures
        (d & (low_bits_mask(bits) as usize)) as int == a % (pow2(bits) as int),
        0 <= a % (pow2(bits) as int) < pow2(bits),
{
    lemma_usize_low_bits_mask_is_mod(d, bits);
    lemma_usize_pow2_no_overflow(bits);
    lemma_pow2_pos(bits);
    if d as int != a {
        lemma_word_vanishes(a, bits);
    }
}

/// The word size is a multiple of every capacity `pow2(bits)` below it.
proof fn lemma_word_vanishes(a: int, bits: nat)
    requires
        bits < usize::BITS,
    ensures
        (a + usize::MAX + 1) % (pow2(bits) as int) == a % (pow2(bits) as int),
{
    lemma_pow2_pos(bits);
    let n = pow2(bits) as int;
    vstd::layout::unsigned_int_max_values();
    lemma_pow2_adds(bits, (usize::BITS - bits) as nat);
    let q = pow2((usize::BITS - bits) as nat) as int;
    assert(usize::MAX + 1 == n * q);
    lemma_mod_multiples_vanish(q, a, n);
}

impl<T: Copy + Default> CircularBuffer<T> for DelayLine<T> {
    closed spec fn ages(&self) -> Seq<T> {
        Seq::new(
            self.buffer@.len(),
            |age: int| self.buffer@[(self.write_index - age - 1) % (self.buffer@.len() as int)],
        )
    }

    closed spec fn well_formed(&self) -> bool {
        &&& self.bits@ < usize::BITS
        &&& self.buffer@.len() == pow2(self.bits@)
        &&& self.mask as int == low_bits_mask(self.bits@)
        &&& call_ensures(T::default, (), self.silence)
    }

    closed spec fn silence(&self) -> T {
        self.silence
    }

    fn size(&self) -> (r: usize) {
        proof {
            lemma_pow2_pos(self.bits@);
        }
        self.buffer.len()
    }

    fn push(&mut self, value: T) {
        let ghost before = *self;
        let n = self.buffer.len();
        proof {
            lemma_pow2_pos(self.bits@);
            lemma_masked_slot(self.write_index, self.write_index as int, self.bits@);
        }
        let slot = self.write_index & self.mask;
        self.buffer.set(slot, value);
        self.write_index = self.write_index.wrapping_add(1);
        proof {
            let w = before.write_index as int;
            let len = n as int;
            let a = self.ages();
            let b = pushed(before.ages(), value);
            assert forall|age: int| 0 <= age < len implies #[trigger] a[age] == b[age] by {
                let k = (self.write_index - age - 1) % len;
                if self.write_index as int != w + 1 {
                    lemma_word_vanishes(w - age - usize::MAX - 1, self.bits@);
                }
                assert(k == (w - age) % len);
                lemma_mod_bound(w - age, len);
                if age > 0 {
                    assert(k == (w - (age - 1) - 1) % len);
                    lemma_mod_equivalence(w - age, w, len);
                    lemma_mod_add_multiples_vanish(-age, len);
                    lemma_small_mod((len - age) as nat, len as nat);
                    assert(k != w % len);
                }
            }
            assert(a =~= b);
        }
    }

    fn back(&self) -> (r: &T) {
        let n = self.size();
        self.at(n - 1)
    }

    fn clear(&mut self) {
        let ghost before = *self;
        let n = self.buffer.len();
        let mut i: usize = 0;
        while i < n
            invariant
                0 <= i <= n,
                n == self.buffer@.len(),
                self.write_index == before.write_index,
                self.mask == before.mask,
                self.bits == before.bits,
                self.silence == before.silence,
                before.well_formed(),
                forall|j: int| 0 <= j < i ==> #[trigger] self.buffer@[j] == self.silence,
            decreases n - i,
        {
            self.buffer.set(i, self.silence);
            i = i + 1;
        }
        proof {
            lemma_pow2_pos(self.bits@);
            let len = n as int;
            assert forall|age: int| 0 <= age < len implies #[trigger] self.ages()[age]
                == before.silence by {
                lemma_mod_bound(self.write_index - age - 1, len);
            }
        }
    }
}

impl<T: Copy + Default> DelayLine<T> {
    /// A delay line with room for at least `size` samples, every slot silent:
    /// filled with the default of the sample type, zero for numbers.
    pub fn new(size: usize) -> (r: Self)
        requires
            size <= usize::MAX / 2 + 1,
        ensures
            r.well_formed(),
            call_ensures(T::default, (), r.silence()),
            is_rounded_capacity(r.ages().len() as int, size as int),
            forall|age: int| 0 <= age < r.ages().len() ==> #[trigger] r.ages()[age] == r.silence(),
    {
        let adjusted_size = adjust_length_to_power_of_two(size);
        let ghost bits: nat = choose|k: nat| #[trigger] pow2(k) == adjusted_size;
        proof {
            vstd::layout::unsigned_int_max_values();
            if bits >= usize::BITS {
                if bits > usize::BITS {
                    lemma_pow2_strictly_increases(usize::BITS as nat, bits);
                }
                assert(false);
            }
        }
        let silence = T::default();
        let mut buffer: Vec<T> = Vec::new();
        let mut i: usize = 0;
        while i < adjusted_size
            invariant
                0 <= i <= adjusted_size,
                buffer@.len() == i,
                forall|j: int| 0 <= j < i ==> #[trigger] buffer@[j] == silence,
            decreases adjusted_size - i,
        {
            buffer.push(silence);
            i = i + 1;
        }
        let r = DelayLine { buffer, write_index: 0, mask: adjusted_size - 1, silence, bits: Ghost(bits) };
        proof {
            let len = adjusted_size as int;
            assert forall|age: int| 0 <= age < len implies #[trigger] r.ages()[age]
                == silence by {
                lemma_mod_bound(-age - 1, len);
            }
        }
        r
    }

    /// The slot that holds the sample pushed `back` pushes ago.
    fn slot(&self, back: usize) -> (r: usize)
        requires
            self.well_formed(),
        ensures
            r < self.buffer@.len(),
            r as int == (self.write_index - back) % (self.buffer@.len() as int),
    {
        let d = self.write_index.wrapping_sub(back);
        proof {
            lemma_masked_slot(d, self.write_index - back, self.bits@);
        }
        d & self.mask
    }

    fn at(&self, age: usize) -> (r: &T)
        requires
            self.well_formed(),
            age < self.ages().len(),
        ensures
            *r == self.ages()[age as int],
    {
        proof {
            lemma_usize_pow2_no_overflow(self.bits@);
        }
        let s = self.slot(age + 1);
        &self.buffer[s]
    }

    /// The sample pushed `age + 1` pushes ago (age 0 is the newest).
    pub fn read(&self, age: usize) -> (r: T)
        requires
            self.well_formed(),
            age < self.ages().len(),
        ensures
            r == self.ages()[age as int],
    {
        *self.at(age)
    }

    /// The samples at `age` and at the next age, where the next age after the
    /// oldest wraps round to the newest: the two points a fractional read
    /// between `age` and `age + 1` interpolates.
    pub fn neighbors(&self, age: usize) -> (r: (T, T))
        requires
            self.well_formed(),
            age < self.ages().len(),
        ensures
            r.0 == self.ages()[age as int],
            r.1 == self.ages()[(age + 1) % (self.ages().len() as int)],
    {
        proof {
            lemma_usize_pow2_no_overflow(self.bits@);
            lemma_pow2_pos(self.bits@);
        }
        let first = self.slot(age + 1);
        let second = self.slot(age + 2);
        proof {
            let len = self.buffer@.len() as int;
            if age + 1 == len {
                lemma_mod_self_0(len);
                lemma_mod_sub_multiples_vanish(self.write_index - 1, len);
            } else {
                lemma_small_mod((age + 1) as nat, len as nat);
            }
        }
        (self.buffer[first], self.buffer[second])
    }
}

} // verus!
