//! Random placement of device memory in a shard's address space.
//!
//! A 64-bit xorshift generator, seeded from the time stamp counter, picks page-aligned
//! addresses above the stack and below the end of the first gigabyte.

use vstd::prelude::*;

use crate::vmm::PAGE_4K;

verus! {

/// Start of the region for random placement: the end of the stack.
pub const ASLR_START: u64 = 0x80_0000;

/// End of the region for random placement.
pub const ASLR_END: u64 = 0x3F00_0000;

/// Number of states of the generator: the numbers that it draws repeat after so many.
pub const GENERATOR_STATES: u128 = 0x1_0000_0000_0000_0000;

/// One step of the generator.
pub open spec fn xorshift(s: u64) -> u64 {
    let a = s ^ (s << 13);
    let b = a ^ (a >> 7);
    b ^ (b << 17)
}

/// The generator's state after `n` steps.
pub open spec fn draws(s: u64, n: nat) -> u64
    decreases n,
{
    if n == 0 {
        s
    } else {
        xorshift(draws(s, (n - 1) as nat))
    }
}

/// The address that the random number `x` stands for, for a mapping of `map_size` bytes.
pub open spec fn vaddr_for(x: u64, map_size: u64) -> u64 {
    let pages = (ASLR_END - ASLR_START - map_size) / PAGE_4K as int;
    (ASLR_START + (x as int % pages) * PAGE_4K) as u64
}

/// Whether a mapping of this size leaves a choice of addresses.
pub open spec fn placeable(map_size: u64) -> bool {
    map_size + PAGE_4K <= ASLR_END - ASLR_START
}

/// Whether the ranges of `m` bytes from `a` on and of `n` bytes from `b` on meet.
pub open spec fn overlap(a: u64, m: u64, b: u64, n: u64) -> bool {
    b < a + m && a < b + n
}

/// A xorshift64 generator.
#[derive(Clone, Copy, Debug)]
pub struct Prng {
    state: u64,
}

impl Prng {
    pub closed spec fn state(&self) -> u64 {
        self.state
    }
}

/// Start the generator from the time stamp counter. Its state is never zero.
pub fn prng_seed(tsc: u64) -> (p: Prng)
    ensures
        p.state() == tsc | 1,
        p.state() != 0,
{
    proof {
        assert(tsc | 1 != 0) by (bit_vector);
    }
    Prng { state: tsc | 1 }
}

/// The next random number.
pub fn prng_next(p: &mut Prng) -> (x: u64)
    ensures
        x == xorshift(old(p).state()),
        final(p).state() == x,
{
    let mut s: u64 = p.state;
    s = s ^ (s << 13);
    s = s ^ (s >> 7);
    s = s ^ (s << 17);
    p.state = s;
    s
}

/// A random page-aligned address for a mapping of `map_size` bytes.
pub fn random_vaddr(p: &mut Prng, map_size: u64) -> (v: u64)
    requires
        placeable(map_size),
    ensures
        v == vaddr_for(xorshift(old(p).state()), map_size),
        final(p).state() == xorshift(old(p).state()),
{
    let range: u64 = ASLR_END - ASLR_START - map_size;
    let pages: u64 = range / PAGE_4K;
    let x: u64 = prng_next(p);
    let offset: u64 = (x % pages) * PAGE_4K;
    ASLR_START + offset
}

/// The address drawn for video memory from the state `s` on.
pub open spec fn vram_drawn(s: u64, vram_size: u64) -> u64 {
    vaddr_for(draws(s, 1), vram_size)
}

/// The address drawn for the device registers at try number `k`, from 1 on.
pub open spec fn mmio_drawn(s: u64, mmio_size: u64, k: nat) -> u64 {
    vaddr_for(draws(s, 1 + k), mmio_size)
}

/// Whether the registers do not meet video memory at try number `k`.
pub open spec fn clear_at(s: u64, vram_size: u64, mmio_size: u64, k: nat) -> bool {
    !overlap(vram_drawn(s, vram_size), vram_size, mmio_drawn(s, mmio_size, k), mmio_size)
}

/// Whether try number `k` is the first at which they do not meet.
pub open spec fn first_clear(s: u64, vram_size: u64, mmio_size: u64, k: nat) -> bool {
    &&& 1 <= k
    &&& clear_at(s, vram_size, mmio_size, k)
    &&& forall|j: nat| 1 <= j < k ==> !(#[trigger] clear_at(s, vram_size, mmio_size, j))
}

/// How many addresses are drawn for the registers, up to the first that does not meet video
/// memory.
pub open spec fn tries(s: u64, vram_size: u64, mmio_size: u64) -> nat {
    choose|k: nat| first_clear(s, vram_size, mmio_size, k)
}

/// The addresses of video memory and of the registers that are drawn from the state `s` on.
/// There are none where the two meet at every try.
pub open spec fn placement(s: u64, vram_size: u64, mmio_size: u64) -> Option<(u64, u64)> {
    if exists|k: nat| 1 <= k && #[trigger] clear_at(s, vram_size, mmio_size, k) {
        Some(
            (
                vram_drawn(s, vram_size),
                mmio_drawn(s, mmio_size, tries(s, vram_size, mmio_size)),
            ),
        )
    } else {
        None
    }
}

/// Addresses for video memory and for device registers that do not meet. The address of
/// the registers is drawn again while they meet. There is no result, and the generator is
/// as before, where they meet however often that is done.
pub fn place(p: &mut Prng, vram_size: u64, mmio_size: u64) -> (r: Option<(u64, u64)>)
    requires
        placeable(vram_size),
        placeable(mmio_size),
    ensures
        r == placement(old(p).state(), vram_size, mmio_size),
        final(p).state() == (if r is Some {
            draws(old(p).state(), 1 + tries(old(p).state(), vram_size, mmio_size))
        } else {
            old(p).state()
        }),
{
    let seed: u64 = p.state;
    let vram: u64 = random_vaddr(p, vram_size);
    proof {
        reveal_with_fuel(draws, 3);
        law_placed(draws(seed, 1), vram_size);
    }
    let last: u64 = ASLR_START + ((ASLR_END - ASLR_START - mmio_size) / PAGE_4K - 1) * PAGE_4K;
    if vram < ASLR_START + mmio_size && last < vram + vram_size {
        proof {
            assert forall|k: nat| 1 <= k implies !(#[trigger] clear_at(
                seed,
                vram_size,
                mmio_size,
                k,
            )) by {
                lemma_drawn_between(draws(seed, 1 + k), mmio_size);
            }
        }
        p.state = seed;
        return None;
    }
    let mut mmio: u64 = random_vaddr(p, mmio_size);
    let mut k: u128 = 1;
    proof {
        law_placed(draws(seed, 2), mmio_size);
    }
    while mmio < vram + vram_size && vram < mmio + mmio_size
        invariant
            1 <= k <= GENERATOR_STATES,
            seed == old(p).state(),
            placeable(vram_size),
            placeable(mmio_size),
            p.state() == draws(seed, (1 + k) as nat),
            vram == vram_drawn(seed, vram_size),
            mmio == mmio_drawn(seed, mmio_size, k as nat),
            vram + vram_size <= ASLR_END,
            mmio + mmio_size <= ASLR_END,
            forall|j: nat|
                1 <= j < k ==> !(#[trigger] clear_at(seed, vram_size, mmio_size, j)),
        decreases GENERATOR_STATES - k,
    {
        assert(!clear_at(seed, vram_size, mmio_size, k as nat));
        if k == GENERATOR_STATES {
            proof {
                lemma_never_clear(seed, vram_size, mmio_size);
            }
            p.state = seed;
            return None;
        }
        mmio = random_vaddr(p, mmio_size);
        k += 1;
        proof {
            assert(draws(seed, (1 + k) as nat) == xorshift(draws(seed, k as nat)));
            law_placed(draws(seed, (1 + k) as nat), mmio_size);
        }
    }
    proof {
        assert(clear_at(seed, vram_size, mmio_size, k as nat));
        assert(first_clear(seed, vram_size, mmio_size, k as nat));
        lemma_first_unique(seed, vram_size, mmio_size, k as nat);
    }
    Some((vram, mmio))
}

/// There is one first try.
proof fn lemma_first_unique(s: u64, vram_size: u64, mmio_size: u64, k: nat)
    requires
        first_clear(s, vram_size, mmio_size, k),
    ensures
        tries(s, vram_size, mmio_size) == k,
{
    let t = tries(s, vram_size, mmio_size);
    assert(first_clear(s, vram_size, mmio_size, t));
    if t < k {
        assert(!clear_at(s, vram_size, mmio_size, t));
    }
    if k < t {
        assert(!clear_at(s, vram_size, mmio_size, k));
    }
}

/// Where there is a try at which the two do not meet, there is a first.
proof fn lemma_first_exists(s: u64, vram_size: u64, mmio_size: u64, k: nat)
    requires
        1 <= k,
        clear_at(s, vram_size, mmio_size, k),
    ensures
        first_clear(s, vram_size, mmio_size, tries(s, vram_size, mmio_size)),
    decreases k,
{
    if !first_clear(s, vram_size, mmio_size, k) {
        let j = choose|j: nat| 1 <= j < k && #[trigger] clear_at(s, vram_size, mmio_size, j);
        lemma_first_exists(s, vram_size, mmio_size, j);
    }
}

/// The addresses that can be drawn lie between the start of the region and the last page at
/// which the mapping ends before the region does.
proof fn lemma_drawn_between(x: u64, map_size: u64)
    requires
        placeable(map_size),
    ensures
        ASLR_START <= vaddr_for(x, map_size) <= ASLR_START + ((ASLR_END - ASLR_START - map_size)
            / PAGE_4K as int - 1) * PAGE_4K,
{
    law_placed(x, map_size);
    let pages = (ASLR_END - ASLR_START - map_size) / PAGE_4K as int;
    assert(0 <= x as int % pages < pages) by {
        vstd::arithmetic::div_mod::lemma_mod_bound(x as int, pages);
    }
}

/// The numbers drawn after a state that comes again come again too.
proof fn lemma_repeats(s: u64, i: nat, j: nat, d: nat)
    requires
        draws(s, i) == draws(s, j),
    ensures
        draws(s, i + d) == draws(s, j + d),
    decreases d,
{
    if d > 0 {
        lemma_repeats(s, i, j, (d - 1) as nat);
        assert(draws(s, i + d) == xorshift(draws(s, (i + d - 1) as nat)));
        assert(draws(s, j + d) == xorshift(draws(s, (j + d - 1) as nat)));
    }
}

/// Among one more draw than there are states, two give the same number.
proof fn lemma_two_alike(s: u64) -> (r: (nat, nat))
    ensures
        1 <= r.0 < r.1 <= GENERATOR_STATES + 1,
        draws(s, 1 + r.0) == draws(s, 1 + r.1),
{
    let n = (GENERATOR_STATES + 1) as nat;
    let q = Seq::new(n, |k: int| draws(s, (k + 2) as nat) as int);
    if q.no_duplicates() {
        q.unique_seq_to_set();
        let all = vstd::set_lib::set_int_range(0, GENERATOR_STATES as int);
        vstd::set_lib::lemma_int_range(0, GENERATOR_STATES as int);
        assert forall|a: int| q.to_set().contains(a) implies all.contains(a) by {
            let k = choose|k: int| 0 <= k < q.len() && q[k] == a;
            assert(q[k] == draws(s, (k + 2) as nat) as int);
        }
        vstd::set_lib::lemma_len_subset(q.to_set(), all);
    }
    let (i, j) = choose|i: int, j: int|
        0 <= i < q.len() && 0 <= j < q.len() && i != j && #[trigger] q[i] == #[trigger] q[j];
    assert(draws(s, (i + 2) as nat) == draws(s, (j + 2) as nat));
    if i < j {
        ((i + 1) as nat, (j + 1) as nat)
    } else {
        ((j + 1) as nat, (i + 1) as nat)
    }
}

/// Every number that is ever drawn is among the first ones, as many as there are states.
proof fn lemma_drawn_early(s: u64, k: nat) -> (j: nat)
    requires
        1 <= k,
    ensures
        1 <= j <= GENERATOR_STATES,
        draws(s, 1 + j) == draws(s, 1 + k),
    decreases k,
{
    if k <= GENERATOR_STATES {
        k
    } else {
        let (a, b) = lemma_two_alike(s);
        let d = (k - b) as nat;
        lemma_repeats(s, 1 + a, 1 + b, d);
        lemma_drawn_early(s, a + d)
    }
}

/// Where the two meet at as many tries as there are states, they meet at every try.
proof fn lemma_never_clear(s: u64, vram_size: u64, mmio_size: u64)
    requires
        forall|j: nat|
            1 <= j <= GENERATOR_STATES ==> !(#[trigger] clear_at(s, vram_size, mmio_size, j)),
    ensures
        forall|k: nat| 1 <= k ==> !(#[trigger] clear_at(s, vram_size, mmio_size, k)),
{
    assert forall|k: nat| 1 <= k implies !(#[trigger] clear_at(s, vram_size, mmio_size, k)) by {
        let j = lemma_drawn_early(s, k);
        assert(!clear_at(s, vram_size, mmio_size, j));
    }
}

// ---------------------------------------------------------------------------
// Laws
// ---------------------------------------------------------------------------

/// The generator never reaches the state zero, in which it would stay.
pub proof fn law_never_zero(s: u64, n: nat)
    requires
        s != 0,
    ensures
        draws(s, n) != 0,
    decreases n,
{
    if n > 0 {
        law_never_zero(s, (n - 1) as nat);
        let x = draws(s, (n - 1) as nat);
        let a = x ^ (x << 13);
        let b = a ^ (a >> 7);
        assert(a != 0) by (bit_vector)
            requires
                x != 0,
                a == x ^ (x << 13),
        ;
        assert(b != 0 && b ^ (b << 17) != 0) by (bit_vector)
            requires
                a != 0,
                b == a ^ (a >> 7),
        ;
    }
}

/// A random address is page-aligned, and the mapping lies above the stack and ends at least
/// a page below the end of the region.
pub proof fn law_placed(x: u64, map_size: u64)
    requires
        placeable(map_size),
    ensures
        vaddr_for(x, map_size) % PAGE_4K == 0,
        ASLR_START <= vaddr_for(x, map_size),
        vaddr_for(x, map_size) + map_size + PAGE_4K <= ASLR_END,
{
    let range = ASLR_END - ASLR_START - map_size;
    let pages = range / PAGE_4K as int;
    assert(pages >= 1);
    let r = x as int % pages;
    assert(0 <= r < pages) by {
        vstd::arithmetic::div_mod::lemma_mod_bound(x as int, pages);
    }
    assert(r * PAGE_4K <= range - PAGE_4K);
}

/// Where both are placed, video memory and device registers do not meet, and both lie in
/// the region for random placement.
pub proof fn law_placement_apart(s: u64, vram_size: u64, mmio_size: u64)
    requires
        placeable(vram_size),
        placeable(mmio_size),
        placement(s, vram_size, mmio_size) is Some,
    ensures
        ({
            let (vram, mmio) = placement(s, vram_size, mmio_size)->0;
            &&& !overlap(vram, vram_size, mmio, mmio_size)
            &&& vram % PAGE_4K == 0 && mmio % PAGE_4K == 0
            &&& ASLR_START <= vram && vram + vram_size + PAGE_4K <= ASLR_END
            &&& ASLR_START <= mmio && mmio + mmio_size + PAGE_4K <= ASLR_END
        }),
{
    let k = choose|k: nat| 1 <= k && #[trigger] clear_at(s, vram_size, mmio_size, k);
    lemma_first_exists(s, vram_size, mmio_size, k);
    law_placed(draws(s, 1), vram_size);
    law_placed(draws(s, 1 + tries(s, vram_size, mmio_size)), mmio_size);
}

/// Every page of the region at which the mapping still ends before the region does can be
/// drawn, and each number stands for one of them.
pub proof fn law_every_place_possible(map_size: u64, v: u64)
    requires
        placeable(map_size),
        v % 4096 == 0,
        0x80_0000 <= v,
        v + map_size + 4096 <= 0x3F00_0000,
    ensures
        exists|x: u64| #[trigger] vaddr_for(x, map_size) == v,
{
    let pages = (ASLR_END - ASLR_START - map_size) / PAGE_4K as int;
    let x = ((v - ASLR_START) / 4096) as u64;
    assert(0 <= x < pages);
    assert(x as int % pages == x) by {
        vstd::arithmetic::div_mod::lemma_small_mod(x as nat, pages as nat);
    }
    assert(vaddr_for(x, map_size) == v);
}

/// One step of the generator mixes the state with itself shifted 13 bits up, then 7 bits down,
/// then 17 bits up.
pub proof fn law_generator_step(s: u64, a: u64, b: u64)
    requires
        a == s ^ (s << 13),
        b == a ^ (a >> 7),
    ensures
        xorshift(s) == b ^ (b << 17),
        draws(s, 0) == s,
        forall|n: nat| #[trigger] draws(s, n + 1) == xorshift(draws(s, n)),
{
}

/// Whether two ranges of bytes have one in common.
pub open spec fn share_a_byte(a: u64, m: u64, b: u64, n: u64) -> bool {
    exists|x: int| a <= x < a + m && #[trigger] within(x, b, n)
}

/// Whether the byte at `x` is one of `n` from `b` on.
pub open spec fn within(x: int, b: u64, n: u64) -> bool {
    b <= x < b + n
}

proof fn lemma_share(a: u64, m: u64, b: u64, n: u64)
    requires
        0 < m,
        0 < n,
    ensures
        overlap(a, m, b, n) == share_a_byte(a, m, b, n),
{
    if overlap(a, m, b, n) {
        let x = if a < b {
            b as int
        } else {
            a as int
        };
        assert(within(x, b, n));
    }
}

/// Video memory goes where the first number drawn says. The registers go where the first of the
/// following numbers says that leaves them no byte in common with it.
pub proof fn law_first_that_fits(s: u64, vram_size: u64, mmio_size: u64, k: nat)
    requires
        0 < vram_size,
        0 < mmio_size,
        1 <= k,
        !share_a_byte(
            vaddr_for(draws(s, 1), vram_size),
            vram_size,
            vaddr_for(draws(s, 1 + k), mmio_size),
            mmio_size,
        ),
        forall|j: nat|
            1 <= j < k ==> share_a_byte(
                vaddr_for(draws(s, 1), vram_size),
                vram_size,
                #[trigger] vaddr_for(draws(s, 1 + j), mmio_size),
                mmio_size,
            ),
    ensures
        placement(s, vram_size, mmio_size) == Some(
            (vaddr_for(draws(s, 1), vram_size), vaddr_for(draws(s, 1 + k), mmio_size)),
        ),
{
    lemma_share(
        vaddr_for(draws(s, 1), vram_size),
        vram_size,
        vaddr_for(draws(s, 1 + k), mmio_size),
        mmio_size,
    );
    assert forall|j: nat| 1 <= j < k implies !(#[trigger] clear_at(s, vram_size, mmio_size, j)) by {
        lemma_share(
            vaddr_for(draws(s, 1), vram_size),
            vram_size,
            vaddr_for(draws(s, 1 + j), mmio_size),
            mmio_size,
        );
    }
    assert(clear_at(s, vram_size, mmio_size, k));
    lemma_first_unique(s, vram_size, mmio_size, k);
}

} // verus!
