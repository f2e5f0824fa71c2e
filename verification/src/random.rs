use vstd::prelude::*;

verus! {

/// Product of a length and a 32-bit draw, scaled down by 2^32.
pub open spec fn scaled_index(len: int, draw: int) -> int {
    (len * draw) / 0x1_0000_0000
}

proof fn lemma_scaled_index_bound(len: int, draw: int)
    requires
        0 < len,
        0 <= draw < 0x1_0000_0000,
    ensures
        0 <= scaled_index(len, draw) < len,
{
    assert(0 <= len * draw < len * 0x1_0000_0000) by (nonlinear_arith)
        requires
            0 < len,
            0 <= draw < 0x1_0000_0000,
    ;
    assert((len * draw) / 0x1_0000_0000 < len) by (nonlinear_arith)
        requires
            0 <= len * draw < len * 0x1_0000_0000,
    ;
    assert(0 <= (len * draw) / 0x1_0000_0000) by (nonlinear_arith)
        requires
            0 <= len * draw,
    ;
}

/// A source of uniformly distributed 32-bit values, with the derived
/// integer draws used across the solver.
pub trait Random: Sized {
    /// The value that the next draw returns, where the source determines
    /// it; `None` where it does not say.
    spec fn known_next(&self) -> Option<u32>;

    /// The source after one draw, where `known_next` is `Some`.
    spec fn after_draw(&self) -> Self;

    /// The next `k` draws and the source after them, where the source
    /// knows them all.
    spec fn draws(&self, k: nat) -> Option<(Seq<u32>, Self)>;

    /// `draws` takes the known draws one by one.
    proof fn lemma_draws(&self, k: nat)
        ensures
            self.draws(k) matches Some((ds, rest)) ==> ds.len() == k,
            k == 0 ==> self.draws(k) == Some((Seq::<u32>::empty(), *self)),
            k > 0 ==> self.draws(k) == match self.known_next() {
                None => None,
                Some(d) => match self.after_draw().draws((k - 1) as nat) {
                    None => None,
                    Some((ds, rest)) => Some((seq![d] + ds, rest)),
                },
            },
    ;

    /// The next raw 32-bit value.
    fn _next(&mut self) -> (r: u32)
        ensures
            old(self).known_next() matches Some(v) ==> r == v && *final(self) == old(self).after_draw(),
    ;

    /// An index in `[0, len)` drawn by scaling the next raw value.
    fn gen_index(&mut self, len: usize) -> (r: usize)
        requires
            len <= 0x1_0000_0000,
        ensures
            len > 0 ==> r < len,
            len == 0 ==> r == 0,
            old(self).known_next() matches Some(d) ==> r == scaled_index(len as int, d as int)
                && *final(self) == old(self).after_draw(),
    {
        let draw = self._next();
        proof {
            if len > 0 {
                lemma_scaled_index_bound(len as int, draw as int);
            }
            assert(0 <= (len as u64) * (draw as u64) <= 0x1_0000_0000 * 0xffff_ffff) by (nonlinear_arith)
                requires
                    len <= 0x1_0000_0000,
                    draw <= 0xffff_ffff,
            ;
        }
        let prod: u64 = (len as u64) * (draw as u64);
        let shifted: u64 = prod >> 32u64;
        proof {
            assert(prod >> 32u64 == prod / 0x1_0000_0000) by (bit_vector);
            if len == 0 {
                assert((len as int) * (draw as int) == 0) by (nonlinear_arith)
                    requires
                        len == 0,
                ;
            }
        }
        shifted as usize
    }

    /// An element of `v` picked by `gen_index`.
    fn choice<T: Copy>(&mut self, v: &[T]) -> (r: T)
        requires
            0 < v@.len() <= 0x1_0000_0000,
        ensures
            v@.contains(r),
            old(self).known_next() matches Some(d) ==> r == v@[scaled_index(v@.len() as int, d as int)]
                && *final(self) == old(self).after_draw(),
    {
        let idx = self.gen_index(v.len());
        assert(v@[idx as int] == v@[idx as int]);
        v[idx]
    }

    /// A value in `[l, r)` drawn by scaling the next raw value.
    fn gen_range(&mut self, l: usize, r: usize) -> (x: usize)
        requires
            l < r,
            r <= 0x1_0000_0000,
        ensures
            l <= x < r,
            old(self).known_next() matches Some(d) ==> x == l + scaled_index(r - l, d as int)
                && *final(self) == old(self).after_draw(),
    {
        let offset = self.gen_index(r - l);
        l + offset
    }

    /// Fisher-Yates shuffle: the result is a permutation of the input; for
    /// a source whose draws are known, it is the permutation that those
    /// draws pick.
    fn shuffle<T: Copy>(&mut self, v: &mut [T])
        requires
            old(v)@.len() <= 0x1_0000_0000,
        ensures
            final(v)@.len() == old(v)@.len(),
            final(v)@.to_multiset() == old(v)@.to_multiset(),
            old(self).draws(shuffle_draw_count(old(v)@.len() as int)) matches Some((ds, rest)) ==> {
                &&& final(v)@ == shuffled(old(v)@, ds, shuffle_draw_count(old(v)@.len() as int) as int)
                &&& *final(self) == rest
            },
    {
        let n = v.len();
        let ghost orig = v@;
        let ghost src0 = *self;
        let ghost count = shuffle_draw_count(n as int);
        let mut i = n;
        proof {
            src0.lemma_draws(count);
            if src0.draws(count) is Some {
                let (ds, rest) = src0.draws(count).unwrap();
                assert(ds.skip(0) =~= ds);
            }
        }
        while i > 1
            invariant
                1 <= i <= n || (i == n && n <= 1),
                n == v@.len(),
                n == orig.len(),
                n <= 0x1_0000_0000,
                count == shuffle_draw_count(n as int),
                v@.to_multiset() == orig.to_multiset(),
                src0.draws(count) matches Some((ds, rest)) ==> {
                    &&& ds.len() == count
                    &&& self.draws((count - (n - i)) as nat) == Some((ds.skip(n - i), rest))
                    &&& v@ == shuffled(orig, ds, n - i)
                },
            decreases i,
        {
            proof {
                if src0.draws(count) is Some {
                    let (ds, rest) = src0.draws(count).unwrap();
                    self.lemma_draws((count - (n - i)) as nat);
                    assert(ds.skip(n - i).drop_first() =~= ds.skip(n - i + 1));
                    assert(ds.skip(n - i)[0] == ds[n - i]);
                }
            }
            i -= 1;
            let ghost pre = v@;
            let j = self.gen_range(0, i + 1);
            let a = v[i];
            let b = v[j];
            proof {
                swap_preserves_multiset(v@, i as int, j as int);
            }
            v[i] = b;
            v[j] = a;
            proof {
                if src0.draws(count) is Some {
                    let (ds, rest) = src0.draws(count).unwrap();
                    assert(v@ =~= pre.update(i as int, pre[j as int]).update(j as int, pre[i as int]));
                }
            }
        }
        proof {
            if src0.draws(count) is Some {
                let (ds, rest) = src0.draws(count).unwrap();
                assert(n - i == count);
                assert(ds.skip(count as int) =~= Seq::<u32>::empty());
                self.lemma_draws(0);
            }
        }
    }
}

/// The number of draws a shuffle of `n` values makes.
pub open spec fn shuffle_draw_count(n: int) -> nat {
    if n > 1 { (n - 1) as nat } else { 0 }
}

/// `s` after the first `t` steps of the shuffle with draws `ds`: step `t`
/// exchanges position `n - t` with the position that its draw picks among
/// the first `n - t + 1`.
pub open spec fn shuffled<T>(s: Seq<T>, ds: Seq<u32>, t: int) -> Seq<T>
    decreases t,
{
    if t <= 0 {
        s
    } else {
        let p = shuffled(s, ds, t - 1);
        let k = s.len() - t;
        let j = scaled_index(k + 1, ds[t - 1] as int);
        p.update(k, p[j]).update(j, p[k])
    }
}

/// Exchanging two positions of a sequence keeps its multiset of elements.
pub proof fn swap_preserves_multiset<T>(s: Seq<T>, i: int, j: int)
    requires
        0 <= i < s.len(),
        0 <= j < s.len(),
    ensures
        s.update(i, s[j]).update(j, s[i]).to_multiset() == s.to_multiset(),
{
    broadcast use vstd::seq_lib::group_to_multiset_ensures;
    broadcast use vstd::multiset::group_multiset_axioms;
    let a = s[i];
    let b = s[j];
    let s1 = s.update(i, b);
    vstd::seq_lib::to_multiset_update(s, i, b);
    vstd::seq_lib::to_multiset_update(s1, j, a);
    if i == j {
        assert(s.update(i, s[j]).update(j, s[i]) =~= s);
    } else {
        assert(s1[j] == b);
        assert(s1.to_multiset() == s.to_multiset().insert(b).remove(a));
        assert(s1.update(j, a).to_multiset() == s1.to_multiset().insert(a).remove(b));
        assert(s.to_multiset().count(a) > 0);
        assert(s.to_multiset().insert(b).remove(a).insert(a).remove(b) =~= s.to_multiset());
    }
}

/// One step of the xorshift32 generator.
pub open spec fn xorshift(x: u32) -> u32 {
    let a = x ^ (x << 13u32);
    let b = a ^ (a >> 17u32);
    b ^ (b << 5u32)
}

/// A xorshift32 step maps a non-zero state to a non-zero state, so the
/// generator never gets stuck at zero.
pub proof fn lemma_xorshift_nonzero(x: u32)
    requires
        x != 0,
    ensures
        xorshift(x) != 0,
{
    assert(x != 0 ==> {
        let a = x ^ (x << 13u32);
        let b = a ^ (a >> 17u32);
        b ^ (b << 5u32) != 0
    }) by (bit_vector);
}

/// The xorshift32 generator of Marsaglia; its state is never zero.
#[derive(Debug, Clone, Copy)]
pub struct XorShift32 {
    state: u32,
}

impl XorShift32 {
    #[verifier::type_invariant]
    spec fn state_nonzero(&self) -> bool {
        self.state != 0
    }

    /// The current state.
    pub closed spec fn state_spec(&self) -> u32 {
        self.state
    }

    /// A generator starting from `seed`, which must not be zero.
    pub fn new(seed: u32) -> (res: Self)
        requires
            seed != 0,
        ensures
            res.state_spec() == seed,
    {
        XorShift32 { state: seed }
    }
}

impl Random for XorShift32 {

    open spec fn draws(&self, k: nat) -> Option<(Seq<u32>, Self)>
        decreases k,
    {
        if k == 0 {
            Some((Seq::empty(), *self))
        } else {
            match self.known_next() {
                None => None,
                Some(d) => match self.after_draw().draws((k - 1) as nat) {
                    None => None,
                    Some((ds, rest)) => Some((seq![d] + ds, rest)),
                },
            }
        }
    }

    proof fn lemma_draws(&self, k: nat)
        decreases k,
    {
        if k > 0 {
            self.after_draw().lemma_draws((k - 1) as nat);
        }
    }
    open spec fn known_next(&self) -> Option<u32> {
        Some(xorshift(self.state_spec()))
    }

    closed spec fn after_draw(&self) -> Self {
        XorShift32 { state: xorshift(self.state_spec()) }
    }

    /// Advances the state by one xorshift step and returns it.
    fn _next(&mut self) -> (r: u32)
        ensures
            r == xorshift(old(self).state_spec()),
            final(self).state_spec() == r,
    {
        proof {
            use_type_invariant(&*self);
        }
        let x0 = self.state;
        let a = x0 ^ (x0 << 13u32);
        let b = a ^ (a >> 17u32);
        let x = b ^ (b << 5u32);
        proof {
            lemma_xorshift_nonzero(x0);
        }
        self.state = x;
        x
    }
}

/// A fixed buffer of raw values drawn once, replayed cyclically.
#[derive(Debug)]
pub struct BufferedRandom {
    buf: Vec<u32>,
    pos: usize,
}

impl BufferedRandom {
    #[verifier::type_invariant]
    spec fn position_in_buffer(&self) -> bool {
        self.pos < self.buf@.len()
    }

    /// The buffered values.
    pub closed spec fn buffer(&self) -> Seq<u32> {
        self.buf@
    }

    /// The index of the next value to replay.
    pub closed spec fn position(&self) -> int {
        self.pos as int
    }

    /// Draws `buf_size` values from `rnd`, which then replay from the
    /// first. Where `rnd` knows its next `buf_size` draws, the buffer holds
    /// them in order and `rnd` ends after them.
    pub fn new<R: Random>(rnd: &mut R, buf_size: usize) -> (res: Self)
        requires
            0 < buf_size < 1_000_000,
        ensures
            res.buffer().len() == buf_size,
            res.position() == 0,
            old(rnd).draws(buf_size as nat) matches Some((ds, rest)) ==> res.buffer() == ds && *final(rnd) == rest,
    {
        let ghost r0 = *rnd;
        proof {
            r0.lemma_draws(buf_size as nat);
            if let Some((ds, rest)) = r0.draws(buf_size as nat) {
                assert(ds.skip(0) =~= ds);
                assert(ds.take(0) =~= Seq::<u32>::empty());
            }
        }
        let mut buf: Vec<u32> = Vec::new();
        let mut i: usize = 0;
        while i < buf_size
            invariant
                i <= buf_size,
                buf@.len() == i,
                r0.draws(buf_size as nat) matches Some((ds, rest)) ==> {
                    &&& ds.len() == buf_size
                    &&& rnd.draws((buf_size - i) as nat) == Some((ds.skip(i as int), rest))
                    &&& buf@ == ds.take(i as int)
                },
            decreases buf_size - i,
        {
            let ghost before = *rnd;
            proof {
                before.lemma_draws((buf_size - i) as nat);
            }
            let v = rnd._next();
            proof {
                if let Some((ds, rest)) = r0.draws(buf_size as nat) {
                    let d = before.known_next().unwrap();
                    assert(v == d);
                    let (ds1, rest1) = before.after_draw().draws((buf_size - i - 1) as nat).unwrap();
                    assert(ds.skip(i as int) == seq![d] + ds1);
                    assert(rest1 == rest);
                    assert(ds.skip(i as int)[0] == ds[i as int]);
                    assert(ds1 =~= ds.skip(i + 1)) by {
                        assert forall|k: int| 0 <= k < ds1.len() implies ds1[k] == ds.skip(i + 1)[k] by {
                            assert(ds.skip(i as int)[k + 1] == ds1[k]);
                        }
                    }
                    assert(ds.take(i + 1) =~= ds.take(i as int).push(d));
                }
            }
            buf.push(v);
            i += 1;
        }
        proof {
            if let Some((ds, rest)) = r0.draws(buf_size as nat) {
                rnd.lemma_draws(0);
                assert(ds.take(buf_size as int) =~= ds);
            }
        }
        BufferedRandom { buf, pos: 0 }
    }
}

impl Random for BufferedRandom {

    open spec fn draws(&self, k: nat) -> Option<(Seq<u32>, Self)>
        decreases k,
    {
        if k == 0 {
            Some((Seq::empty(), *self))
        } else {
            match self.known_next() {
                None => None,
                Some(d) => match self.after_draw().draws((k - 1) as nat) {
                    None => None,
                    Some((ds, rest)) => Some((seq![d] + ds, rest)),
                },
            }
        }
    }

    proof fn lemma_draws(&self, k: nat)
        decreases k,
    {
        if k > 0 {
            self.after_draw().lemma_draws((k - 1) as nat);
        }
    }
    open spec fn known_next(&self) -> Option<u32> {
        Some(self.buffer()[self.position()])
    }

    closed spec fn after_draw(&self) -> Self {
        BufferedRandom { buf: self.buf, pos: ((self.position() + 1) % (self.buffer().len() as int)) as usize }
    }

    /// The value at the current position; the position moves on and wraps
    /// around at the end of the buffer.
    fn _next(&mut self) -> (r: u32)
        ensures
            r == old(self).buffer()[old(self).position()],
            final(self).buffer() == old(self).buffer(),
            final(self).position() == (old(self).position() + 1) % (old(self).buffer().len() as int),
    {
        proof {
            use_type_invariant(&*self);
        }
        let len = self.buf.len();
        let v = self.buf[self.pos];
        let next = self.pos + 1;
        proof {
            if next == len {
                vstd::arithmetic::div_mod::lemma_mod_self_0(len as int);
            } else {
                vstd::arithmetic::div_mod::lemma_small_mod(next as nat, len as nat);
            }
        }
        let next = if next == len { 0 } else { next };
        self.pos = next;
        v
    }
}

/// A source of values of type `T`.
pub trait RandomSampler<T> {
    fn sample(&mut self) -> T;
}

/// Sum of the weights of `weight_values`.
pub open spec fn weight_sum<T>(weight_values: Seq<(usize, T)>) -> int
    decreases weight_values.len(),
{
    if weight_values.len() == 0 {
        0
    } else {
        weight_sum(weight_values.drop_last()) + weight_values.last().0
    }
}

/// Each value repeated as many times as its weight, in order.
pub open spec fn expand<T>(weight_values: Seq<(usize, T)>) -> Seq<T>
    decreases weight_values.len(),
{
    if weight_values.len() == 0 {
        Seq::empty()
    } else {
        let (w, v) = weight_values.last();
        expand(weight_values.drop_last()) + Seq::new(w as nat, |i: int| v)
    }
}

proof fn lemma_expand_len<T>(weight_values: Seq<(usize, T)>)
    ensures
        expand(weight_values).len() == weight_sum(weight_values),
        weight_sum(weight_values) >= 0,
    decreases weight_values.len(),
{
    if weight_values.len() > 0 {
        lemma_expand_len(weight_values.drop_last());
    }
}

/// A non-empty table of fewer than a million values.
pub struct SampleTable<T> {
    values: Vec<T>,
}

impl<T> SampleTable<T> {
    #[verifier::type_invariant]
    spec fn size_ok(&self) -> bool {
        0 < self.values@.len() < 1_000_000
    }

    /// The values of the table.
    pub closed spec fn view(&self) -> Seq<T> {
        self.values@
    }
}

/// Samples values with probability proportional to integer weights, by
/// drawing uniformly from a table that repeats each value by its weight.
pub struct DiscreteSampler<T, R> {
    buf: SampleTable<T>,
    rnd: R,
}

impl<T, R> DiscreteSampler<T, R> {
    /// The table of values, each repeated by its weight.
    pub closed spec fn table(&self) -> Seq<T> {
        self.buf@
    }

    /// The random source that the samples are drawn from.
    pub closed spec fn source(&self) -> R {
        self.rnd
    }
}

impl<T: Copy, R: Random> DiscreteSampler<T, R> {
    /// A sampler over `weight_values`, whose weights must sum to a positive
    /// value below one million.
    pub fn new(weight_values: &[(usize, T)], rnd: R) -> (res: Self)
        requires
            0 < weight_sum(weight_values@) < 1_000_000,
        ensures
            res.table() == expand(weight_values@),
            res.source() == rnd,
    {
        let mut buf: Vec<T> = Vec::new();
        let mut i: usize = 0;
        while i < weight_values.len()
            invariant
                i <= weight_values@.len(),
                buf@ == expand(weight_values@.take(i as int)),
                0 < weight_sum(weight_values@) < 1_000_000,
            decreases weight_values@.len() - i,
        {
            let (w, val) = weight_values[i];
            let ghost before = buf@;
            proof {
                assert(weight_values@.take(i as int + 1).drop_last() =~= weight_values@.take(i as int));
                assert(weight_values@.take(i as int + 1).last() == (w, val));
            }
            let mut k: usize = 0;
            while k < w
                invariant
                    k <= w,
                    buf@ == before + Seq::new(k as nat, |q: int| val),
                decreases w - k,
            {
                buf.push(val);
                proof {
                    assert(buf@ =~= before + Seq::new((k + 1) as nat, |q: int| val));
                }
                k += 1;
            }
            i += 1;
        }
        proof {
            assert(weight_values@.take(weight_values@.len() as int) =~= weight_values@);
            lemma_expand_len(weight_values@);
        }
        DiscreteSampler { buf: SampleTable { values: buf }, rnd }
    }
}

impl<T: Copy, R: Random> RandomSampler<T> for DiscreteSampler<T, R> {
    /// A value of the table, drawn uniformly by position: where the
    /// source's next draw is known as `d`, the value at the position that
    /// `d` scales to, with the source moved past that draw.
    fn sample(&mut self) -> (r: T)
        ensures
            old(self).table().contains(r),
            final(self).table() == old(self).table(),
            old(self).source().known_next() matches Some(d) ==>
                r == old(self).table()[scaled_index(old(self).table().len() as int, d as int)]
                && final(self).source() == old(self).source().after_draw(),
    {
        proof {
            use_type_invariant(&self.buf);
        }
        self.rnd.choice(self.buf.values.as_slice())
    }
}

/// The 128-bit multiplicative congruential generator of the PCG family
/// (`pcg64_fast`), from `rand_pcg`.
#[verifier::external_type_specification]
#[verifier::external_body]
pub struct ExMcg128Xsl64(rand_pcg::Mcg128Xsl64);

/// `Mcg128Xsl64::seed_from_u64` of `rand_pcg` (through `SeedableRng`):
/// the generator seeded from a 64-bit value. Its state is opaque here, so
/// nothing is stated of it.
#[verifier::external_body]
fn pcg_seed_from_u64(seed: u64) -> rand_pcg::Mcg128Xsl64 {
    <rand_pcg::Mcg128Xsl64 as rand_pcg::rand_core::SeedableRng>::seed_from_u64(seed)
}

/// `Mcg128Xsl64::next_u32` of `rand_pcg` (through `RngCore`): advances the
/// generator and returns the low half of its output. The value depends on
/// the opaque state, so nothing is stated of it.
#[verifier::external_body]
fn pcg_next_u32(rng: &mut rand_pcg::Mcg128Xsl64) -> u32 {
    rand_pcg::rand_core::RngCore::next_u32(rng)
}

/// A `Random` source backed by the PCG generator of `rand_pcg`.
pub struct RandPcg64Mcg {
    inner: rand_pcg::Mcg128Xsl64,
}

impl RandPcg64Mcg {
    /// A generator seeded with `seed`.
    pub fn new(seed: u64) -> Self {
        RandPcg64Mcg { inner: pcg_seed_from_u64(seed) }
    }
}

impl Random for RandPcg64Mcg {

    open spec fn draws(&self, k: nat) -> Option<(Seq<u32>, Self)>
        decreases k,
    {
        if k == 0 {
            Some((Seq::empty(), *self))
        } else {
            match self.known_next() {
                None => None,
                Some(d) => match self.after_draw().draws((k - 1) as nat) {
                    None => None,
                    Some((ds, rest)) => Some((seq![d] + ds, rest)),
                },
            }
        }
    }

    proof fn lemma_draws(&self, k: nat)
        decreases k,
    {
        if k > 0 {
            self.after_draw().lemma_draws((k - 1) as nat);
        }
    }
    /// The generator's state is opaque here: its next value is not known.
    open spec fn known_next(&self) -> Option<u32> {
        None
    }

    open spec fn after_draw(&self) -> Self {
        *self
    }

    fn _next(&mut self) -> u32 {
        pcg_next_u32(&mut self.inner)
    }
}

} // verus!
