//! A bounded FIFO ring buffer: the queue between pipeline stages. Its two
//! counters only ever grow (modulo 2^64); the slot of a counter is its value
//! modulo the capacity, a power of two.
use vstd::prelude::*;

verus! {

/// The message that travels through the queue.
#[derive(Debug, Clone, Copy, PartialEq, Eq, Structural)]
pub struct Msg(pub u64);

/// The number of values of a `u64`.
pub open spec fn u64_range() -> int {
    0x1_0000_0000_0000_0000
}

/// `n` is a power of two.
pub open spec fn is_power_of_two(n: nat) -> bool
    decreases n,
{
    n == 1 || (n > 1 && n % 2 == 0 && is_power_of_two(n / 2))
}

/// The bit test that the queue makes.
spec fn single_bit(n: usize) -> bool {
    n != 0 && n & ((n - 1) as usize) == 0
}

/// A nonzero number with no bit in common with its predecessor is a power of two.
proof fn lemma_single_bit(n: usize)
    ensures
        single_bit(n) <==> is_power_of_two(n as nat),
    decreases n,
{
    if n > 1 {
        let h = n / 2;
        assert(n > 1 ==> (n & ((n - 1) as usize) == 0 <==> (n % 2 == 0 && h & ((h - 1) as usize)
            == 0))) by (bit_vector)
            requires
                h == n / 2,
        ;
        lemma_single_bit(h);
    } else if n == 1 {
        assert(1usize & 0usize == 0) by (bit_vector);
    }
}

/// A bounded single-producer single-consumer FIFO queue.
pub struct SpscQueue {
    cap: usize,
    ring: Vec<Msg>,
    lptr: u64,
    rptr: u64,
}

impl SpscQueue {
    /// How many messages are queued: the distance between the counters.
    closed spec fn count(&self) -> int {
        if self.rptr >= self.lptr {
            self.rptr - self.lptr
        } else {
            self.rptr - self.lptr + u64_range()
        }
    }

    /// The capacity it was made with.
    pub closed spec fn cap(&self) -> nat {
        self.cap as nat
    }

    pub closed spec fn wf(&self) -> bool {
        &&& single_bit(self.cap)
        &&& self.ring@.len() == self.cap
        &&& self.count() <= self.cap
    }
}

impl View for SpscQueue {
    type V = Seq<Msg>;

    /// The queued messages, oldest first.
    closed spec fn view(&self) -> Seq<Msg> {
        Seq::new(
            self.count() as nat,
            |i: int| self.ring@[(self.lptr as int + i) % (self.cap as int)],
        )
    }
}

/// A power of two divides the number of values of a `u64`.
proof fn lemma_pow2_divides_range(c: usize)
    requires
        single_bit(c),
    ensures
        u64_range() == (c as int) * (u64_range() / (c as int)),
{
    let c64 = c as u64;
    assert(c64 != 0 && c64 & ((c64 - 1) as u64) == 0) by (bit_vector)
        requires
            c != 0 && c & ((c - 1) as usize) == 0,
            c64 == c as u64,
    ;
    assert(0xffff_ffff_ffff_ffffu64 % c64 == c64 - 1) by (bit_vector)
        requires
            c64 != 0 && c64 & ((c64 - 1) as u64) == 0,
    ;
    let ci = c as int;
    let x = 0xffff_ffff_ffff_ffffint;
    vstd::arithmetic::div_mod::lemma_fundamental_div_mod(x, ci);
    vstd::arithmetic::div_mod::lemma_fundamental_div_mod(u64_range(), ci);
    assert(u64_range() == ci * (x / ci + 1)) by (nonlinear_arith)
        requires
            x == ci * (x / ci) + (ci - 1),
            u64_range() == x + 1,
    ;
    vstd::arithmetic::div_mod::lemma_mod_multiples_basic(x / ci + 1, ci);
    assert((x / ci + 1) * ci == ci * (x / ci + 1)) by (nonlinear_arith);
    assert(u64_range() % ci == 0);
}

/// Shifting by the number of values of a `u64` keeps the slot.
proof fn lemma_wrap_slot(x: int, c: usize)
    requires
        single_bit(c),
    ensures
        (x - u64_range()) % (c as int) == x % (c as int),
        (x + u64_range()) % (c as int) == x % (c as int),
{
    let ci = c as int;
    lemma_pow2_divides_range(c);
    let k = u64_range() / ci;
    vstd::arithmetic::div_mod::lemma_mod_multiples_basic(k, ci);
    vstd::arithmetic::div_mod::lemma_mod_multiples_basic(-k, ci);
    assert(k * ci == u64_range()) by (nonlinear_arith)
        requires
            u64_range() == ci * k,
    ;
    assert((-k) * ci == -u64_range()) by (nonlinear_arith)
        requires
            u64_range() == ci * k,
    ;
    vstd::arithmetic::div_mod::lemma_mod_equivalence(x - u64_range(), x, ci);
    vstd::arithmetic::div_mod::lemma_mod_equivalence(x + u64_range(), x, ci);
    assert(x - u64_range() - x == -u64_range());
    assert(x + u64_range() - x == u64_range());
}

/// Two positions less than the capacity apart are in different slots.
proof fn lemma_distinct_slots(a: int, b: int, c: int)
    requires
        0 < c,
        a < b < a + c,
    ensures
        a % c != b % c,
{
    vstd::arithmetic::div_mod::lemma_mod_equivalence(b, a, c);
    vstd::arithmetic::div_mod::lemma_small_mod((b - a) as nat, c as nat);
}

/// A well-formed queue never holds more than its capacity.
pub proof fn lemma_len_bounded(q: &SpscQueue)
    requires
        q.wf(),
    ensures
        q@.len() <= q.cap(),
{
}

impl SpscQueue {
    /// An empty queue of capacity `cap`, which must be a power of two.
    pub fn with_capacity(cap: usize) -> (r: Result<SpscQueue, String>)
        ensures
            cap == 0 ==> (r matches Err(e) && e@ == "Capacity must be greater than 0"@),
            cap != 0 && !is_power_of_two(cap as nat) ==> (r matches Err(e) && e@
                == "Capacity must be a power of 2"@),
            is_power_of_two(cap as nat) ==> (r matches Ok(q) && q.wf() && q@ == Seq::<Msg>::empty()
                && q.cap() == cap && q@.len() <= q.cap()),
    {
        proof {
            lemma_single_bit(cap);
        }
        if cap == 0 {
            return Err("Capacity must be greater than 0".to_string());
        }
        if cap & (cap - 1) != 0 {
            return Err("Capacity must be a power of 2".to_string());
        }
        let mut ring: Vec<Msg> = Vec::new();
        while ring.len() < cap
            invariant
                ring@.len() <= cap,
            decreases cap - ring@.len(),
        {
            ring.push(Msg(0));
        }
        let q = SpscQueue { cap, ring, lptr: 0, rptr: 0 };
        assert(q@ =~= Seq::<Msg>::empty());
        Ok(q)
    }

    /// Appends `item`, or hands it back when the queue is full.
    pub fn try_push(&mut self, item: Msg) -> (r: Result<(), Msg>)
        requires
            old(self).wf(),
        ensures
            final(self).wf(),
            final(self).cap() == old(self).cap(),
            final(self)@.len() <= final(self).cap(),
            old(self)@.len() < old(self).cap() ==> r is Ok && final(self)@ == old(self)@.push(
                item,
            ),
            old(self)@.len() == old(self).cap() ==> r == Err::<(), Msg>(item) && final(self)@ == old(
                self,
            )@,
    {
        let rptr = self.rptr;
        let lptr = self.lptr;
        if rptr.wrapping_sub(lptr) == self.cap as u64 {
            return Err(item);
        }
        let ghost old_view = self@;
        let ghost n = self.count();
        let c = self.cap as u64;
        let idx = (rptr % c) as usize;
        proof {
            lemma_wrap_slot(lptr as int + n, self.cap);
            assert(rptr as int % (c as int) == (lptr as int + n) % (self.cap as int));
        }
        self.ring.set(idx, item);
        self.rptr = rptr.wrapping_add(1);
        proof {
            lemma_wrap_slot(rptr as int + 1, self.cap);
            assert(self.count() == n + 1);
            assert forall|i: int| 0 <= i < n implies #[trigger] self@[i] == old_view[i] by {
                lemma_distinct_slots(lptr as int + i, lptr as int + n, self.cap as int);
            }
            assert(self@ =~= old_view.push(item));
        }
        Ok(())
    }

    /// Takes out the oldest message, if any.
    pub fn try_pop(&mut self) -> (r: Option<Msg>)
        requires
            old(self).wf(),
        ensures
            final(self).wf(),
            final(self).cap() == old(self).cap(),
            final(self)@.len() <= final(self).cap(),
            old(self)@.len() == 0 ==> r is None && final(self)@ == old(self)@,
            old(self)@.len() > 0 ==> r == Some(old(self)@[0]) && final(self)@ == old(
                self,
            )@.drop_first(),
    {
        let rptr = self.rptr;
        let lptr = self.lptr;
        if rptr == lptr {
            return None;
        }
        let ghost old_view = self@;
        let ghost n = self.count();
        let c = self.cap as u64;
        let item = self.ring[(lptr % c) as usize];
        self.lptr = lptr.wrapping_add(1);
        proof {
            assert(item == old_view[0]);
            lemma_wrap_slot(lptr as int + 1, self.cap);
            assert(self.count() == n - 1);
            assert forall|i: int| 0 <= i < n - 1 implies #[trigger] self@[i] == old_view[i + 1] by {
                lemma_wrap_slot(lptr as int + 1 + i, self.cap);
            }
            assert(self@ =~= old_view.drop_first());
        }
        Some(item)
    }

    /// How many messages are queued.
    pub fn len(&self) -> (r: usize)
        requires
            self.wf(),
        ensures
            r == self@.len(),
            r <= self.cap(),
    {
        self.rptr.wrapping_sub(self.lptr) as usize
    }

    pub fn is_empty(&self) -> (r: bool)
        requires
            self.wf(),
        ensures
            r == (self@.len() == 0),
    {
        self.rptr == self.lptr
    }

    pub fn is_full(&self) -> (r: bool)
        requires
            self.wf(),
        ensures
            r == (self@.len() == self.cap()),
    {
        self.rptr.wrapping_sub(self.lptr) == self.cap as u64
    }

    pub fn capacity(&self) -> (r: usize)
        ensures
            r == self.cap(),
    {
        self.cap
    }
}

} // verus!
