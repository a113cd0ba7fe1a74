//! CPython's `random.Random`, enough of it for `--shuffle`.
//!
//! `solve` shuffles each layer's candidates through one `random.Random(seed)`
//! whose state advances across layers, so reproducing the traversal means
//! reproducing the generator bit for bit: the Mersenne Twister, its
//! `init_by_array` seeding, `getrandbits`, `_randbelow_with_getrandbits` and
//! `shuffle`'s exact Fisher–Yates direction.
//!
//! The spec functions below are the generator's definition, stated over
//! sequences: every executable step is proved to compute exactly them, so the
//! permutation a seed produces is pinned down by the contract alone.
use vstd::prelude::*;

verus! {

broadcast use vstd::seq_lib::group_to_multiset_ensures;

/// The state size, in 32-bit words.
pub const N: usize = 624;

/// The twist offset.
pub const M: usize = 397;

pub const MATRIX_A: u32 = 0x9908_b0df;

pub const UPPER_MASK: u32 = 0x8000_0000;

pub const LOWER_MASK: u32 = 0x7fff_ffff;

/// The largest number of rejected draws `randbelow` makes before it gives
/// up and answers `0`. Each rejection has probability below one half, so the
/// budget is never reached by any run that can finish.
pub const DRAW_BUDGET: u64 = 0xffff_ffff_ffff_ffff;

/// A generator state: the 624 words and the read position.
pub type MtState = (Seq<u32>, nat);

// ── The generator, as mathematics ─────────────────────────────────────

/// The word `init_genrand` derives from its predecessor at position `i`.
pub open spec fn genrand_next(prev: u32, i: u32) -> u32 {
    1_812_433_253u32.wrapping_mul(prev ^ (prev >> 30u32)).wrapping_add(i)
}

/// The first `n` words of `init_genrand(s)`.
pub open spec fn init_genrand_words(s: u32, n: nat) -> Seq<u32>
    decreases n,
{
    if n == 0 {
        Seq::empty()
    } else if n == 1 {
        seq![s]
    } else {
        let p = init_genrand_words(s, (n - 1) as nat);
        p.push(genrand_next(p.last(), (n - 1) as u32))
    }
}

/// One step of `init_by_array`'s first loop, over `(mt, i, j)`.
pub open spec fn mix_step(st: (Seq<u32>, int, int), key: Seq<u32>) -> (Seq<u32>, int, int) {
    let mt = st.0;
    let i = st.1;
    let j = st.2;
    let prev = mt[i - 1];
    let v = (mt[i] ^ (prev ^ (prev >> 30u32)).wrapping_mul(1_664_525u32)).wrapping_add(
        key[j],
    ).wrapping_add(j as u32);
    let mt1 = mt.update(i, v);
    let mt2 = if i + 1 >= N { mt1.update(0, mt1[N - 1]) } else { mt1 };
    let i2 = if i + 1 >= N { 1 } else { i + 1 };
    let j2 = if j + 1 >= key.len() { 0 } else { j + 1 };
    (mt2, i2, j2)
}

pub open spec fn mix_iter(st: (Seq<u32>, int, int), key: Seq<u32>, t: nat) -> (Seq<u32>, int, int)
    decreases t,
{
    if t == 0 {
        st
    } else {
        mix_step(mix_iter(st, key, (t - 1) as nat), key)
    }
}

/// One step of `init_by_array`'s second loop, over `(mt, i)`.
pub open spec fn scramble_step(st: (Seq<u32>, int)) -> (Seq<u32>, int) {
    let mt = st.0;
    let i = st.1;
    let prev = mt[i - 1];
    let v = (mt[i] ^ (prev ^ (prev >> 30u32)).wrapping_mul(1_566_083_941u32)).wrapping_sub(
        i as u32,
    );
    let mt1 = mt.update(i, v);
    let mt2 = if i + 1 >= N { mt1.update(0, mt1[N - 1]) } else { mt1 };
    let i2 = if i + 1 >= N { 1 } else { i + 1 };
    (mt2, i2)
}

pub open spec fn scramble_iter(st: (Seq<u32>, int), t: nat) -> (Seq<u32>, int)
    decreases t,
{
    if t == 0 {
        st
    } else {
        scramble_step(scramble_iter(st, (t - 1) as nat))
    }
}

/// `init_by_array(key)`: the state it leaves, index at `N`.
pub open spec fn init_by_array_state(key: Seq<u32>) -> MtState {
    let start = (init_genrand_words(19_650_218u32, N as nat), 1int, 0int);
    let rounds = if N >= key.len() { N as nat } else { key.len() };
    let a = mix_iter(start, key, rounds);
    let b = scramble_iter((a.0, a.1), (N - 1) as nat);
    (b.0.update(0, 0x8000_0000u32), N as nat)
}

/// An integer seed's key: its magnitude in 32-bit words, least significant
/// first, and always at least one word.
pub open spec fn key_words(rest: u64) -> Seq<u32>
    decreases rest,
{
    let w = (rest % 0x1_0000_0000u64) as u32;
    let r = rest / 0x1_0000_0000u64;
    if r == 0 {
        seq![w]
    } else {
        seq![w] + key_words(r)
    }
}

/// `abs(seed)`, which is all of the seed CPython uses.
pub open spec fn magnitude(seed: i64) -> u64 {
    if seed < 0 {
        (-(seed as int)) as u64
    } else {
        seed as u64
    }
}

/// The state `random.Random(seed)` starts from.
pub open spec fn seeded_state(seed: i64) -> MtState {
    init_by_array_state(key_words(magnitude(seed)))
}

pub open spec fn mag01(y: u32) -> u32 {
    if y & 1u32 == 0 {
        0
    } else {
        MATRIX_A
    }
}

/// The twist's update of word `kk`, reading its successor and the word `M`
/// ahead, both cyclically.
pub open spec fn twist_at(mt: Seq<u32>, kk: int) -> Seq<u32> {
    let y = (mt[kk] & UPPER_MASK) | (mt[(kk + 1) % (N as int)] & LOWER_MASK);
    mt.update(kk, mt[(kk + (M as int)) % (N as int)] ^ (y >> 1u32) ^ mag01(y))
}

/// The twist applied to words `0 .. k`, in order.
pub open spec fn twist_upto(mt: Seq<u32>, k: nat) -> Seq<u32>
    decreases k,
{
    if k == 0 {
        mt
    } else {
        twist_at(twist_upto(mt, (k - 1) as nat), k - 1)
    }
}

pub open spec fn temper(y0: u32) -> u32 {
    let y1 = y0 ^ (y0 >> 11u32);
    let y2 = y1 ^ ((y1 << 7u32) & 0x9d2c_5680u32);
    let y3 = y2 ^ ((y2 << 15u32) & 0xefc6_0000u32);
    y3 ^ (y3 >> 18u32)
}

/// `genrand_uint32`: the next state and the word it produces.
pub open spec fn next_word(st: MtState) -> (MtState, u32) {
    let mt = if st.1 >= N { twist_upto(st.0, N as nat) } else { st.0 };
    let i: nat = if st.1 >= N { 0 } else { st.1 };
    ((mt, i + 1), temper(mt[i as int]))
}

/// `getrandbits(k)` for `k <= 64`: one draw up to 32 bits, two above,
/// least significant word first.
pub open spec fn getrandbits_spec(st: MtState, k: u32) -> (MtState, u64) {
    if k == 0 {
        (st, 0)
    } else if k <= 32 {
        let a = next_word(st);
        (a.0, (a.1 >> ((32 - k) as u32)) as u64)
    } else {
        let a = next_word(st);
        let b = next_word(a.0);
        let left = (k - 32) as u32;
        let hi = if left < 32 { b.1 >> ((32 - left) as u32) } else { b.1 };
        (b.0, (a.1 as u64) | ((hi as u64) << 32u64))
    }
}

/// The number of bits `n` needs.
pub open spec fn bit_length(n: nat) -> nat
    decreases n,
{
    if n == 0 {
        0
    } else {
        1 + bit_length(n / 2)
    }
}

/// Rejection sampling with at most `fuel` draws of `k` bits each.
pub open spec fn sample_below(st: MtState, n: usize, k: u32, fuel: nat) -> (MtState, usize)
    decreases fuel,
{
    if fuel == 0 {
        (st, 0)
    } else {
        let a = getrandbits_spec(st, k);
        let r = a.1 as usize;
        if r < n {
            (a.0, r)
        } else {
            sample_below(a.0, n, k, (fuel - 1) as nat)
        }
    }
}

/// `_randbelow_with_getrandbits(n)`.
pub open spec fn randbelow_spec(st: MtState, n: usize) -> (MtState, usize) {
    if n == 0 {
        (st, 0)
    } else {
        sample_below(st, n, bit_length(n as nat) as u32, DRAW_BUDGET as nat)
    }
}

/// The list after swapping positions `i` and `j`.
pub open spec fn swapped<T>(s: Seq<T>, i: int, j: int) -> Seq<T> {
    s.update(i, s[j]).update(j, s[i])
}

/// `shuffle`'s Fisher–Yates pass over positions `i - 1` down to `1`.
pub open spec fn shuffle_from<T>(st: MtState, s: Seq<T>, i: nat) -> (MtState, Seq<T>)
    decreases i,
{
    if i <= 1 {
        (st, s)
    } else {
        let a = randbelow_spec(st, i as usize);
        shuffle_from(a.0, swapped(s, i - 1, a.1 as int), (i - 1) as nat)
    }
}

/// `random.shuffle(x)`: the state it leaves and the permutation it makes.
pub open spec fn shuffle_spec<T>(st: MtState, s: Seq<T>) -> (MtState, Seq<T>) {
    shuffle_from(st, s, s.len())
}

/// A state the generator can be in: 624 words, the read position within
/// them or at their end.
pub open spec fn valid_state(st: MtState) -> bool {
    st.0.len() == N && st.1 <= N
}

// ── Lemmas ─────────────────────────────────────────────────────────────

proof fn lemma_init_genrand_len(s: u32, n: nat)
    ensures
        init_genrand_words(s, n).len() == n,
    decreases n,
{
    if n > 1 {
        lemma_init_genrand_len(s, (n - 1) as nat);
    }
}

proof fn lemma_twist_len(mt: Seq<u32>, k: nat)
    requires
        mt.len() == N,
        k <= N,
    ensures
        twist_upto(mt, k).len() == N,
    decreases k,
{
    if k > 0 {
        lemma_twist_len(mt, (k - 1) as nat);
    }
}

proof fn lemma_next_word_valid(st: MtState)
    requires
        valid_state(st),
    ensures
        valid_state(next_word(st).0),
{
    lemma_twist_len(st.0, N as nat);
}

proof fn lemma_getrandbits_valid(st: MtState, k: u32)
    requires
        valid_state(st),
    ensures
        valid_state(getrandbits_spec(st, k).0),
{
    lemma_next_word_valid(st);
    lemma_next_word_valid(next_word(st).0);
}

proof fn lemma_sample_below(st: MtState, n: usize, k: u32, fuel: nat)
    requires
        valid_state(st),
        n > 0,
    ensures
        sample_below(st, n, k, fuel).1 < n,
        valid_state(sample_below(st, n, k, fuel).0),
    decreases fuel,
{
    if fuel > 0 {
        lemma_getrandbits_valid(st, k);
        lemma_sample_below(getrandbits_spec(st, k).0, n, k, (fuel - 1) as nat);
    }
}

/// `randbelow(n)` answers below `n`, and leaves a state the generator can
/// continue from.
pub proof fn lemma_randbelow_in_range(st: MtState, n: usize)
    requires
        valid_state(st),
        n > 0,
    ensures
        randbelow_spec(st, n).1 < n,
        valid_state(randbelow_spec(st, n).0),
{
    lemma_sample_below(st, n, bit_length(n as nat) as u32, DRAW_BUDGET as nat);
}

proof fn lemma_bit_length_bound(n: nat, b: nat)
    requires
        n < vstd::arithmetic::power2::pow2(b),
    ensures
        bit_length(n) <= b,
    decreases n,
{
    if n > 0 {
        if b == 0 {
            vstd::arithmetic::power2::lemma2_to64();
            assert(false);
        }
        vstd::arithmetic::power2::lemma_pow2_unfold(b);
        lemma_bit_length_bound(n / 2, (b - 1) as nat);
    }
}

/// `getrandbits` in terms of whole 32-bit draws: 32 bits are the
/// generator's next word; fewer are the top bits of that same draw; more
/// are a full 32-bit draw in the low half and a `k - 32`-bit draw in the
/// high half, drawn in that order.
pub proof fn lemma_getrandbits_from_words(st: MtState, k: u32)
    requires
        1 <= k <= 64,
    ensures
        getrandbits_spec(st, 32) == (next_word(st).0, next_word(st).1 as u64),
        k <= 32 ==> getrandbits_spec(st, k) == (getrandbits_spec(st, 32).0, getrandbits_spec(st, 32).1 >> ((32 - k) as u64)),
        k > 32 ==> getrandbits_spec(st, k) == ({
            let lo = getrandbits_spec(st, 32);
            let hi = getrandbits_spec(lo.0, (k - 32) as u32);
            (hi.0, lo.1 | (hi.1 << 32u64))
        }),
{
    let w = next_word(st).1;
    assert((w >> 0u32) == w) by (bit_vector);
    if k <= 32 {
        let sh: u32 = (32 - k) as u32;
        let sh64: u64 = (32 - k) as u64;
        assert(((w >> sh) as u64) == ((w as u64) >> sh64)) by (bit_vector)
            requires
                sh as u64 == sh64,
                sh <= 31,
        ;
    } else {
        let b = next_word(next_word(st).0);
        let left = (k - 32) as u32;
        let bw = b.1;
        assert((bw >> 0u32) == bw) by (bit_vector);
        if left < 32 {
            let sh: u32 = (32 - left) as u32;
            let sh64: u64 = (32 - left) as u64;
            assert(((bw >> sh) as u64) == ((bw as u64) >> sh64)) by (bit_vector)
                requires
                    sh as u64 == sh64,
                    sh <= 31,
            ;
        }
    }
}

/// The generator's state after `m` draws of `k` bits.
pub open spec fn after_draws(st: MtState, k: u32, m: nat) -> MtState
    decreases m,
{
    if m == 0 {
        st
    } else {
        after_draws(getrandbits_spec(st, k).0, k, (m - 1) as nat)
    }
}

/// The `i`-th draw of `k` bits from `st`, as an index.
pub open spec fn draw(st: MtState, k: u32, i: nat) -> usize {
    getrandbits_spec(after_draws(st, k, i), k).1 as usize
}

proof fn lemma_bit_length_exact(n: nat, k: nat)
    requires
        k >= 1,
        vstd::arithmetic::power2::pow2((k - 1) as nat) <= n < vstd::arithmetic::power2::pow2(k),
    ensures
        bit_length(n) == k,
    decreases k,
{
    vstd::arithmetic::power2::lemma_pow2_unfold(k);
    if k == 1 {
        vstd::arithmetic::power2::lemma2_to64();
        assert(n == 1);
        assert(bit_length(0) == 0);
    } else {
        vstd::arithmetic::power2::lemma_pow2_unfold((k - 1) as nat);
        lemma_bit_length_exact(n / 2, (k - 1) as nat);
    }
}

proof fn lemma_sample_walk(st: MtState, n: usize, k: u32, fuel: nat, m: nat)
    requires
        m < fuel,
        forall|i: nat| i < m ==> #[trigger] draw(st, k, i) >= n,
        draw(st, k, m) < n,
    ensures
        sample_below(st, n, k, fuel) == (after_draws(st, k, m + 1), draw(st, k, m)),
    decreases m,
{
    let a = getrandbits_spec(st, k);
    assert(draw(st, k, 0) == a.1 as usize);
    if m == 0 {
        assert(after_draws(st, k, 1) == after_draws(a.0, k, 0));
    } else {
        assert(draw(st, k, 0) >= n);
        assert forall|i: nat| i < (m - 1) as nat implies #[trigger] draw(a.0, k, i) >= n by {
            assert(draw(st, k, i + 1) >= n);
            assert(after_draws(st, k, i + 1) == after_draws(a.0, k, i));
        }
        assert(after_draws(st, k, m) == after_draws(a.0, k, (m - 1) as nat));
        assert(after_draws(st, k, m + 1) == after_draws(a.0, k, m));
        lemma_sample_walk(a.0, n, k, (fuel - 1) as nat, (m - 1) as nat);
    }
}

/// `randbelow(n)` is rejection sampling on exactly `n`'s bit length `k`
/// (`2^(k-1) <= n < 2^k`): it answers the first of successive `k`-bit draws
/// that falls below `n`, discarding the earlier ones, and leaves the
/// generator just after that draw.
pub proof fn lemma_randbelow_first_draw_below(st: MtState, n: usize, k: u32, m: nat)
    requires
        n > 0,
        1 <= k,
        vstd::arithmetic::power2::pow2((k - 1) as nat) <= n < vstd::arithmetic::power2::pow2(k as nat),
        m < DRAW_BUDGET,
        forall|i: nat| i < m ==> #[trigger] draw(st, k, i) >= n,
        draw(st, k, m) < n,
    ensures
        randbelow_spec(st, n) == (after_draws(st, k, m + 1), draw(st, k, m)),
{
    lemma_bit_length_exact(n as nat, k as nat);
    lemma_sample_walk(st, n, k, DRAW_BUDGET as nat, m);
}

/// Fisher–Yates only ever swaps, so `shuffle` is a permutation: the same
/// elements, each as many times.
pub proof fn lemma_shuffle_is_permutation<T>(st: MtState, s: Seq<T>, i: nat)
    requires
        valid_state(st),
        i <= s.len(),
        s.len() <= usize::MAX,
    ensures
        shuffle_from(st, s, i).1.to_multiset() == s.to_multiset(),
        shuffle_from(st, s, i).1.len() == s.len(),
        valid_state(shuffle_from(st, s, i).0),
    decreases i,
{
    if i > 1 {
        let a = randbelow_spec(st, i as usize);
        lemma_randbelow_in_range(st, i as usize);
        let j = a.1 as int;
        let t = swapped(s, i - 1, j);
        assert(t.to_multiset() == s.to_multiset()) by {
            let u = s.update(i - 1, s[j]);
            assert(u.to_multiset() == s.to_multiset().insert(s[j]).remove(s[i - 1]));
            assert(t.to_multiset() == u.to_multiset().insert(s[i - 1]).remove(u[j]));
            broadcast use vstd::multiset::group_multiset_properties;
            assert(t.to_multiset() =~= s.to_multiset());
        }
        lemma_shuffle_is_permutation(a.0, t, (i - 1) as nat);
    }
}

/// The positions `0 .. n` in order.
pub open spec fn positions(n: nat) -> Seq<int> {
    Seq::new(n, |i: int| i)
}

proof fn lemma_shuffle_from_map<T>(st: MtState, s: Seq<T>, base: Seq<T>, m: Seq<int>, i: nat)
    requires
        valid_state(st),
        i <= s.len(),
        s.len() <= usize::MAX,
        m.len() == s.len(),
        forall|x: int| 0 <= x < s.len() ==> 0 <= #[trigger] m[x] < base.len() && s[x] == base[m[x]],
    ensures
        shuffle_from(st, s, i).0 == shuffle_from(st, m, i).0,
        shuffle_from(st, s, i).1.len() == s.len(),
        shuffle_from(st, m, i).1.len() == s.len(),
        forall|x: int|
            0 <= x < s.len() ==> 0 <= #[trigger] shuffle_from(st, m, i).1[x] < base.len() && shuffle_from(st, s, i).1[x]
                == base[shuffle_from(st, m, i).1[x]],
    decreases i,
{
    if i > 1 {
        let a = randbelow_spec(st, i as usize);
        lemma_randbelow_in_range(st, i as usize);
        let j = a.1 as int;
        let s2 = swapped(s, i - 1, j);
        let m2 = swapped(m, i - 1, j);
        assert forall|x: int| 0 <= x < s.len() implies 0 <= #[trigger] m2[x] < base.len() && s2[x] == base[m2[x]] by {
            if x == j {
                assert(m2[x] == m[i - 1]);
            } else if x == i - 1 {
                assert(m2[x] == m[j]);
            } else {
                assert(m2[x] == m[x]);
            }
        }
        lemma_shuffle_from_map(a.0, s2, base, m2, (i - 1) as nat);
    }
}

/// `shuffle` depends on the list only through its length: the generator's
/// state fixes a permutation `p` of the positions, and the list comes out
/// as `s[p[0]], s[p[1]], …`, with the generator left in the same state
/// whatever the items. A list of at most one item, and the state, are left
/// unchanged.
pub proof fn lemma_shuffle_permutes_positions<T>(st: MtState, s: Seq<T>)
    requires
        valid_state(st),
        s.len() <= usize::MAX,
    ensures
        ({
            let p = shuffle_spec(st, positions(s.len())).1;
            &&& shuffle_spec(st, s).0 == shuffle_spec(st, positions(s.len())).0
            &&& p.len() == s.len()
            &&& p.to_multiset() == positions(s.len()).to_multiset()
            &&& shuffle_spec(st, s).1.len() == s.len()
            &&& forall|x: int| 0 <= x < s.len() ==> 0 <= #[trigger] p[x] < s.len() && shuffle_spec(st, s).1[x] == s[p[x]]
        }),
        s.len() <= 1 ==> shuffle_spec(st, s) == (st, s),
{
    let m = positions(s.len());
    lemma_shuffle_from_map(st, s, s, m, s.len());
    lemma_shuffle_is_permutation(st, m, s.len());
}

/// Two generators in equal states, shuffling lists of equal length, apply
/// the same permutation and end in the same state.
pub proof fn lemma_equal_states_same_shuffle<A, B>(st: MtState, a: Seq<A>, b: Seq<B>)
    requires
        valid_state(st),
        a.len() == b.len(),
        a.len() <= usize::MAX,
    ensures
        shuffle_spec(st, a).0 == shuffle_spec(st, b).0,
        exists|p: Seq<int>|
            p.len() == a.len() && forall|x: int|
                0 <= x < a.len() ==> 0 <= #[trigger] p[x] < a.len() && shuffle_spec(st, a).1[x] == a[p[x]] && shuffle_spec(
                    st,
                    b,
                ).1[x] == b[p[x]],
{
    lemma_shuffle_permutes_positions(st, a);
    lemma_shuffle_permutes_positions(st, b);
    let p = shuffle_spec(st, positions(a.len())).1;
    assert(positions(a.len()) == positions(b.len()));
    assert(p.len() == a.len() && forall|x: int|
        0 <= x < a.len() ==> 0 <= #[trigger] p[x] < a.len() && shuffle_spec(st, a).1[x] == a[p[x]] && shuffle_spec(st, b).1[x]
            == b[p[x]]);
}

// ── The executable generator ───────────────────────────────────────────

pub struct Mt19937 {
    mt: Vec<u32>,
    index: usize,
}

impl View for Mt19937 {
    type V = MtState;

    closed spec fn view(&self) -> MtState {
        (self.mt@, self.index as nat)
    }
}

/// `slice::swap`.
#[verifier::external_body]
fn swap_items<T>(x: &mut Vec<T>, i: usize, j: usize)
    requires
        i < old(x).len(),
        j < old(x).len(),
    ensures
        final(x)@ == swapped(old(x)@, i as int, j as int),
{
    x.swap(i, j);
}

impl Mt19937 {
    pub open spec fn wf(&self) -> bool {
        valid_state(self@)
    }

    /// `random.Random(seed)` for an integer seed.
    ///
    /// CPython takes the absolute value and splits it into 32-bit words,
    /// little-endian, then seeds by array — so `Random(-5)` and `Random(5)`
    /// are the same generator, and a zero seed still seeds with one word.
    pub fn seeded(seed: i64) -> (r: Mt19937)
        ensures
            r.wf(),
            r@ == seeded_state(seed),
    {
        let n: u64 = if seed < 0 {
            (0i128 - (seed as i128)) as u64
        } else {
            seed as u64
        };
        let mut key: Vec<u32> = Vec::new();
        let mut rest: u64 = n;
        loop
            invariant_except_break
                key@ + key_words(rest) == key_words(n),
            ensures
                key@ == key_words(n),
                key@.len() >= 1,
            decreases rest,
        {
            let w = (rest % 0x1_0000_0000u64) as u32;
            let ghost before = key@;
            key.push(w);
            let next = rest / 0x1_0000_0000u64;
            if next == 0 {
                assert(key_words(rest) == seq![w]);
                assert(key@ =~= before + key_words(rest));
                break;
            }
            assert(key_words(rest) == seq![w] + key_words(next));
            assert(key@ + key_words(next) =~= before + key_words(rest));
            rest = next;
        }
        let mut mt: Vec<u32> = Vec::new();
        let mut k: usize = 0;
        while k < N
            invariant
                mt@.len() == k,
                k <= N,
            decreases N - k,
        {
            mt.push(0);
            k = k + 1;
        }
        let mut r = Mt19937 { mt, index: N };
        r.init_by_array(&key);
        r
    }

    fn init_genrand(&mut self, s: u32)
        requires
            old(self).mt@.len() == N,
        ensures
            final(self).mt@ == init_genrand_words(s, N as nat),
            final(self).index == N,
    {
        self.mt.set(0, s);
        let mut i: usize = 1;
        proof {
            lemma_init_genrand_len(s, 1);
        }
        while i < N
            invariant
                1 <= i <= N,
                self.mt@.len() == N,
                self.mt@.subrange(0, i as int) == init_genrand_words(s, i as nat),
            decreases N - i,
        {
            let prev = self.mt[i - 1];
            let v = 1_812_433_253u32.wrapping_mul(prev ^ (prev >> 30)).wrapping_add(i as u32);
            proof {
                lemma_init_genrand_len(s, i as nat);
                lemma_init_genrand_len(s, (i + 1) as nat);
                let p = init_genrand_words(s, i as nat);
                assert(prev == p.last());
            }
            self.mt.set(i, v);
            assert(self.mt@.subrange(0, i + 1) =~= init_genrand_words(s, (i + 1) as nat));
            i = i + 1;
        }
        assert(self.mt@ =~= self.mt@.subrange(0, N as int));
        self.index = N;
    }

    fn init_by_array(&mut self, key: &Vec<u32>)
        requires
            old(self).mt@.len() == N,
            key@.len() >= 1,
        ensures
            final(self)@ == init_by_array_state(key@),
            final(self).wf(),
    {
        self.init_genrand(19_650_218);
        proof {
            lemma_init_genrand_len(19_650_218u32, N as nat);
        }
        let ghost start = (self.mt@, 1int, 0int);
        let rounds: usize = if N >= key.len() { N } else { key.len() };
        let i = self.mix_key(key, rounds);
        let ghost mid = (self.mt@, i as int);
        assert(mid == (mix_iter(start, key@, rounds as nat).0, mix_iter(start, key@, rounds as nat).1));
        self.scramble(i);
        // The MSB-only value is what makes the state non-zero.
        self.mt.set(0, 0x8000_0000);
    }

    /// `init_by_array`'s first loop, `rounds` steps from `(mt, 1, 0)`.
    fn mix_key(&mut self, key: &Vec<u32>, rounds: usize) -> (i: usize)
        requires
            old(self).mt@.len() == N,
            key@.len() >= 1,
        ensures
            final(self).mt@.len() == N,
            1 <= i < N,
            final(self).index == old(self).index,
            (final(self).mt@, i as int) == ({
                let st = mix_iter((old(self).mt@, 1int, 0int), key@, rounds as nat);
                (st.0, st.1)
            }),
    {
        let ghost start = (self.mt@, 1int, 0int);
        let mut i: usize = 1;
        let mut j: usize = 0;
        let mut t: usize = 0;
        let klen = key.len();
        while t < rounds
            invariant
                0 <= t <= rounds,
                key@.len() >= 1,
                klen == key@.len(),
                1 <= i < N,
                j < key@.len(),
                self.mt@.len() == N,
                self.index == old(self).index,
                start == (old(self).mt@, 1int, 0int),
                (self.mt@, i as int, j as int) == mix_iter(start, key@, t as nat),
            decreases rounds - t,
        {
            let ghost before = (self.mt@, i as int, j as int);
            let prev = self.mt[i - 1];
            let v = (self.mt[i] ^ (prev ^ (prev >> 30)).wrapping_mul(1_664_525)).wrapping_add(
                key[j],
            ).wrapping_add(j as u32);
            self.mt.set(i, v);
            i = i + 1;
            j = j + 1;
            if i >= N {
                let last = self.mt[N - 1];
                self.mt.set(0, last);
                i = 1;
            }
            if j >= klen {
                j = 0;
            }
            assert((self.mt@, i as int, j as int) == mix_step(before, key@));
            t = t + 1;
        }
        i
    }

    /// `init_by_array`'s second loop: `N - 1` steps from `(mt, i)`.
    fn scramble(&mut self, i0: usize)
        requires
            old(self).mt@.len() == N,
            1 <= i0 < N,
        ensures
            final(self).mt@.len() == N,
            final(self).index == old(self).index,
            final(self).mt@ == scramble_iter((old(self).mt@, i0 as int), (N - 1) as nat).0,
    {
        let ghost mid = (self.mt@, i0 as int);
        let mut i = i0;
        let mut t2: usize = 0;
        while t2 < N - 1
            invariant
                0 <= t2 <= N - 1,
                1 <= i < N,
                self.mt@.len() == N,
                self.index == old(self).index,
                mid == (old(self).mt@, i0 as int),
                (self.mt@, i as int) == scramble_iter(mid, t2 as nat),
            decreases N - 1 - t2,
        {
            let ghost before = (self.mt@, i as int);
            let prev = self.mt[i - 1];
            let v = (self.mt[i] ^ (prev ^ (prev >> 30)).wrapping_mul(1_566_083_941)).wrapping_sub(
                i as u32,
            );
            self.mt.set(i, v);
            i = i + 1;
            if i >= N {
                let last = self.mt[N - 1];
                self.mt.set(0, last);
                i = 1;
            }
            assert((self.mt@, i as int) == scramble_step(before));
            t2 = t2 + 1;
        }
    }

    pub fn genrand_uint32(&mut self) -> (w: u32)
        requires
            old(self).wf(),
        ensures
            (final(self)@, w) == next_word(old(self)@),
            final(self).wf(),
    {
        if self.index >= N {
            let ghost orig = self.mt@;
            let mut kk: usize = 0;
            while kk < N - M
                invariant
                    kk <= N - M,
                    self.mt@.len() == N,
                    orig.len() == N,
                    self.mt@ == twist_upto(orig, kk as nat),
                decreases N - M - kk,
            {
                let y = (self.mt[kk] & UPPER_MASK) | (self.mt[kk + 1] & LOWER_MASK);
                let v = self.mt[kk + M] ^ (y >> 1) ^ if y & 1 == 0 {
                    0
                } else {
                    MATRIX_A
                };
                assert((kk + 1) as int % (N as int) == kk + 1);
                assert((kk + M) as int % (N as int) == kk + M);
                self.mt.set(kk, v);
                kk = kk + 1;
            }
            while kk < N - 1
                invariant
                    N - M <= kk <= N - 1,
                    self.mt@.len() == N,
                    orig.len() == N,
                    self.mt@ == twist_upto(orig, kk as nat),
                decreases N - 1 - kk,
            {
                let y = (self.mt[kk] & UPPER_MASK) | (self.mt[kk + 1] & LOWER_MASK);
                let v = self.mt[kk + M - N] ^ (y >> 1) ^ if y & 1 == 0 {
                    0
                } else {
                    MATRIX_A
                };
                assert((kk + 1) as int % (N as int) == kk + 1);
                assert((kk + M) as int % (N as int) == kk + M - N);
                self.mt.set(kk, v);
                kk = kk + 1;
            }
            let y = (self.mt[N - 1] & UPPER_MASK) | (self.mt[0] & LOWER_MASK);
            let v = self.mt[M - 1] ^ (y >> 1) ^ if y & 1 == 0 {
                0
            } else {
                MATRIX_A
            };
            assert((N - 1 + 1) as int % (N as int) == 0);
            assert((N - 1 + M) as int % (N as int) == M - 1);
            self.mt.set(N - 1, v);
            self.index = 0;
        }
        let mut y = self.mt[self.index];
        self.index = self.index + 1;
        y = y ^ (y >> 11);
        y = y ^ ((y << 7) & 0x9d2c_5680);
        y = y ^ ((y << 15) & 0xefc6_0000);
        y = y ^ (y >> 18);
        y
    }

    /// `getrandbits(k)`, for `k` up to 64.
    ///
    /// A single draw for `k <= 32`; above that one word per 32 bits, least
    /// significant first, and only the last one shifted down. The word count
    /// decides how far the generator advances.
    pub fn getrandbits(&mut self, k: u32) -> (r: u64)
        requires
            old(self).wf(),
            k <= 64,
        ensures
            (final(self)@, r) == getrandbits_spec(old(self)@, k),
            final(self).wf(),
            k == 0 ==> r == 0 && final(self)@ == old(self)@,
            k < 64 ==> r < (1u64 << k),
    {
        if k == 0 {
            assert(0u64 < (1u64 << 0u32)) by (bit_vector);
            return 0;
        }
        if k <= 32 {
            let w = self.genrand_uint32();
            let sh: u32 = 32 - k;
            let r = (w >> sh) as u64;
            assert(r < (1u64 << k)) by (bit_vector)
                requires
                    r == (w >> sh) as u64,
                    sh == 32 - k,
                    1 <= k <= 32,
            ;
            return r;
        }
        let lo = self.genrand_uint32();
        let mut hi = self.genrand_uint32();
        let left = k - 32;
        if left < 32 {
            let sh: u32 = 32 - left;
            let h0 = hi;
            hi = h0 >> sh;
            assert(hi < (1u32 << left)) by (bit_vector)
                requires
                    hi == h0 >> sh,
                    sh == 32 - left,
                    1 <= left < 32,
            ;
        }
        let r = (lo as u64) | ((hi as u64) << 32);
        assert(k < 64 ==> r < (1u64 << k)) by (bit_vector)
            requires
                r == (lo as u64) | ((hi as u64) << 32),
                left == k - 32,
                33 <= k <= 64,
                left < 32 ==> hi < (1u32 << left),
        ;
        r
    }

    /// `_randbelow_with_getrandbits` — rejection sampling on the bit length,
    /// which is what makes the result uniform and the number of draws
    /// data-dependent.
    pub fn randbelow(&mut self, n: usize) -> (r: usize)
        requires
            old(self).wf(),
        ensures
            (final(self)@, r) == randbelow_spec(old(self)@, n),
            final(self).wf(),
            n == 0 ==> r == 0 && final(self)@ == old(self)@,
            n > 0 ==> r < n,
    {
        if n == 0 {
            return 0;
        }
        proof {
            lemma_randbelow_in_range(self@, n);
        }
        let mut k: u32 = 0;
        let mut m: usize = n;
        proof {
            vstd::arithmetic::power2::lemma2_to64();
            lemma_bit_length_bound(n as nat, 64);
        }
        while m > 0
            invariant
                bit_length(n as nat) == k + bit_length(m as nat),
                bit_length(n as nat) <= 64,
            decreases m,
        {
            m = m / 2;
            k = k + 1;
        }
        let ghost st0 = self@;
        assert(st0 == old(self)@);
        let mut tries: u64 = 0;
        while tries < DRAW_BUDGET
            invariant
                self.wf(),
                st0 == old(self)@,
                k == bit_length(n as nat),
                k <= 64,
                n > 0,
                sample_below(self@, n, k, (DRAW_BUDGET - tries) as nat) == randbelow_spec(st0, n),
            decreases DRAW_BUDGET - tries,
        {
            let ghost before = self@;
            let v = self.getrandbits(k);
            let r = v as usize;
            proof {
                let fuel = (DRAW_BUDGET - tries) as nat;
                assert(fuel > 0);
                assert(getrandbits_spec(before, k) == (self@, v));
                assert(sample_below(before, n, k, fuel) == (if r < n {
                    (self@, r)
                } else {
                    sample_below(self@, n, k, (fuel - 1) as nat)
                }));
                assert((fuel - 1) as nat == (DRAW_BUDGET - (tries + 1)) as nat);
            }
            if r < n {
                return r;
            }
            tries = tries + 1;
        }
        0
    }

    /// `random.shuffle` — Fisher–Yates downwards, `for i in
    /// reversed(range(1, len(x)))`. The direction is not a detail: reversing
    /// it consumes the same numbers in a different order.
    pub fn shuffle<T>(&mut self, x: &mut Vec<T>)
        requires
            old(self).wf(),
        ensures
            final(self).wf(),
            (final(self)@, final(x)@) == shuffle_spec(old(self)@, old(x)@),
            final(x)@.to_multiset() == old(x)@.to_multiset(),
    {
        let len = x.len();
        proof {
            lemma_shuffle_is_permutation(self@, x@, len as nat);
        }
        let ghost goal = shuffle_spec(self@, x@);
        let mut i: usize = x.len();
        while i > 1
            invariant
                self.wf(),
                i <= x@.len(),
                shuffle_from(self@, x@, i as nat) == goal,
            decreases i,
        {
            let ghost before = self@;
            let j = self.randbelow(i);
            proof {
                lemma_randbelow_in_range(before, i);
            }
            swap_items(x, i - 1, j);
            i = i - 1;
        }
    }
}

} // verus!
