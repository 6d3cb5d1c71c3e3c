//! An open-addressed table of row numbers, probed linearly from a folded hash.
//!
//! Entries are never removed, so a probe may stop at the first free slot. The table is
//! modelled by the pairs it holds: [`SlotTable::holds`].

use crate::bits;
use vstd::prelude::*;

verus! {

/// A row number as a slot stores it.
pub type TermIndex = u32;

/// Marks a slot that holds no row.
pub const EMPTY_SLOT: TermIndex = 0xFFFF_FFFF;

/// Fewest slots a table has.
pub const MIN_SLOTS: usize = 16;

/// One slot: a row number and the folded hash it was filed under.
#[derive(Clone, Copy)]
pub struct Slot {
    pub idx: TermIndex,
    pub hash: u32,
}

/// A 64-bit hash folded to the 32 bits a slot stores.
pub open spec fn folded(full: u64) -> u32 {
    (full ^ (full >> 32)) as u32
}

/// A folded hash spread over a whole machine word.
pub open spec fn spread_of(h: u32) -> usize {
    let a = vstd::wrapping::u64_specs::wrapping_mul(h as u64, 0x9E37_79B9_7F4A_7C15);
    let b = vstd::wrapping::u64_specs::wrapping_mul(a ^ (a >> 30), 0xBF58_476D_1CE4_E5B9);
    let c = vstd::wrapping::u64_specs::wrapping_mul(b ^ (b >> 27), 0x94D0_49BB_1331_11EB);
    (c ^ (c >> 31)) as usize
}

/// Folds a full-width hash into the 32 bits a slot stores.
pub fn fold_from_full(full: u64) -> (h: u32)
    ensures
        h == folded(full),
{
    (full ^ (full >> 32)) as u32
}

/// Avalanches a folded hash back to full width before it drives bucketing.
fn spread(h: u32) -> (s: usize)
    ensures
        s == spread_of(h),
{
    let a: u64 = (h as u64).wrapping_mul(0x9E37_79B9_7F4A_7C15);
    let b: u64 = (a ^ (a >> 30)).wrapping_mul(0xBF58_476D_1CE4_E5B9);
    let c: u64 = (b ^ (b >> 27)).wrapping_mul(0x94D0_49BB_1331_11EB);
    (c ^ (c >> 31)) as usize
}

/// The first of `p`, `2 * p`, `4 * p` and so on that is at least `n`.
pub open spec fn doubled_to(p: int, n: int) -> int
    decreases 2 * n - p,
{
    if p <= 0 || p >= n {
        p
    } else {
        doubled_to(2 * p, n)
    }
}

/// How many slots a table asked to have `n` gets: a power of two, and no fewer than the least.
pub open spec fn slots_for(n: int) -> int {
    doubled_to(
        1,
        if n < MIN_SLOTS {
            MIN_SLOTS as int
        } else {
            n
        },
    )
}

/// Smallest power of two that is at least `n`.
fn ceil_power_of_two(n: usize) -> (p: usize)
    requires
        1 <= n,
        2 * n <= usize::MAX,
    ensures
        p == doubled_to(1, n as int),
        n <= p < 2 * n,
        p & ((p - 1) as usize) == 0,
{
    let mut p: usize = 1;
    proof {
        assert(1usize & 0usize == 0) by (bit_vector);
    }
    while p < n
        invariant
            1 <= p < 2 * n,
            2 * n <= usize::MAX,
            doubled_to(p as int, n as int) == doubled_to(1, n as int),
            p & ((p - 1) as usize) == 0,
        decreases 2 * n - p,
    {
        proof {
            lemma_double_power(p);
        }
        p = 2 * p;
    }
    p
}

proof fn lemma_double_power(p: usize)
    requires
        1 <= p,
        2 * p <= usize::MAX,
        p & ((p - 1) as usize) == 0,
    ensures
        ((2 * p) as usize) & ((2 * p - 1) as usize) == 0,
{
    let q = (p - 1) as usize;
    let d = (2 * p) as usize;
    let e = (2 * p - 1) as usize;
    assert(d & e == 0) by (bit_vector)
        requires
            p & q == 0,
            p == q + 1,
            d == 2 * p,
            e == d - 1,
            1 <= p,
    ;
}

/// Masking by a power of two less one is reduction modulo the power.
proof fn lemma_mask(x: usize, s: usize, mask: usize)
    requires
        mask < usize::MAX,
        ((mask + 1) as usize) & mask == 0,
        s <= mask,
    ensures
        x & mask <= mask,
        ((s + 1) as usize) & mask == (if s == mask {
            0usize
        } else {
            (s + 1) as usize
        }),
{
    let m1 = (mask + 1) as usize;
    let s1 = (s + 1) as usize;
    assert(x & mask <= mask) by (bit_vector);
    assert(s < mask ==> s1 & mask == s1) by (bit_vector)
        requires
            m1 == mask + 1,
            m1 & mask == 0,
            s1 == s + 1,
            s <= mask,
    ;
}

/// Which slots are taken.
pub(crate) open spec fn taken(slots: Seq<Slot>) -> Seq<bool> {
    Seq::new(slots.len(), |s: int| slots[s].idx != EMPTY_SLOT)
}

/// The slot reached after `d` steps from slot `home`.
pub(crate) open spec fn step(home: int, d: int, n: int) -> int {
    if home + d < n {
        home + d
    } else {
        home + d - n
    }
}

/// Slot `s` can be reached from its home slot over taken slots only.
pub(crate) open spec fn reachable(slots: Seq<Slot>, mask: usize, s: int) -> bool {
    exists|d: int|
        0 <= d < slots.len() && #[trigger] step(
            (spread_of(slots[s].hash) & mask) as int,
            d,
            slots.len() as int,
        ) == s && forall|e: int|
            0 <= e < d ==> slots[#[trigger] step(
                (spread_of(slots[s].hash) & mask) as int,
                e,
                slots.len() as int,
            )].idx != EMPTY_SLOT
}

/// The slot files a row with the key `k` under `hash`. Row `i` has the key `keys[i]`.
pub(crate) open spec fn hits(slot: Slot, hash: u32, keys: Seq<Seq<bool>>, k: Seq<bool>) -> bool {
    slot.idx != EMPTY_SLOT && slot.hash == hash && slot.idx < keys.len() && keys[slot.idx as int]
        == k
}

/// What a lookup under `g` finds once row `idx` is filed under `hash` behind what it found
/// before: the row, if it found none and the row has the key.
pub(crate) open spec fn or_new(
    was: Option<TermIndex>,
    idx: TermIndex,
    hash: u32,
    g: u32,
    keys: Seq<Seq<bool>>,
    k: Seq<bool>,
) -> Option<TermIndex> {
    match was {
        Some(i) => Some(i),
        None => if g == hash && idx < keys.len() && keys[idx as int] == k {
            Some(idx)
        } else {
            None
        },
    }
}

/// Doubling goes far enough.
proof fn lemma_doubled_to(p: int, n: int)
    requires
        0 < p,
    ensures
        doubled_to(p, n) >= n,
    decreases 2 * n - p,
{
    if p < n {
        lemma_doubled_to(2 * p, n);
    }
}

/// Row numbers filed under folded hashes.
pub(crate) struct SlotTable {
    slots: Vec<Slot>,
    mask: usize,
    count: usize,
}

impl SlotTable {
    /// The table's shape and probe discipline hold.
    pub(crate) open spec fn wf(&self) -> bool {
        &&& self.shape()
        &&& self.size() * 10 < self.width() * 7
    }

    /// [`SlotTable::wf`] short of the load bound.
    pub(crate) closed spec fn shape(&self) -> bool {
        &&& self.mask < usize::MAX
        &&& self.slots@.len() == self.mask + 1
        &&& self.slots@.len() >= MIN_SLOTS
        &&& ((self.mask + 1) as usize) & self.mask == 0
        &&& self.count == bits::ones(taken(self.slots@))
        &&& self.count < self.slots@.len()
        &&& forall|s: int|
            0 <= s < self.slots@.len() && (#[trigger] self.slots@[s]).idx != EMPTY_SLOT
                ==> reachable(self.slots@, self.mask, s)
    }

    /// Row `idx` is filed under `hash`.
    pub(crate) closed spec fn holds(&self, idx: TermIndex, hash: u32) -> bool {
        idx != EMPTY_SLOT && exists|s: int|
            0 <= s < self.slots@.len() && (#[trigger] self.slots@[s]).idx == idx
                && self.slots@[s].hash == hash
    }

    /// How many entries the table has.
    pub(crate) closed spec fn size(&self) -> nat {
        self.count as nat
    }

    /// How many slots the table has.
    pub(crate) closed spec fn width(&self) -> nat {
        self.slots@.len()
    }

    /// The first row with the key `k` that a probe for `hash` meets, from step `d` on.
    pub(crate) open spec fn found_from(
        &self,
        hash: u32,
        keys: Seq<Seq<bool>>,
        k: Seq<bool>,
        d: int,
    ) -> Option<TermIndex>
        decreases self.width() - d,
    {
        let slot = self.probed(hash, d);
        if d >= self.width() || slot.idx == EMPTY_SLOT {
            None
        } else if hits(slot, hash, keys, k) {
            Some(slot.idx)
        } else {
            self.found_from(hash, keys, k, d + 1)
        }
    }

    /// The first row with the key `k` that a probe for `hash` meets.
    pub(crate) open spec fn found(
        &self,
        hash: u32,
        keys: Seq<Seq<bool>>,
        k: Seq<bool>,
    ) -> Option<TermIndex> {
        self.found_from(hash, keys, k, 0)
    }

    /// The first row with the key `k` that is filed under `hash`, in the order of the first `n`
    /// slots.
    pub(crate) open spec fn laid_to(
        &self,
        hash: u32,
        keys: Seq<Seq<bool>>,
        k: Seq<bool>,
        n: int,
    ) -> Option<TermIndex>
        decreases n,
    {
        if n <= 0 {
            None
        } else {
            match self.laid_to(hash, keys, k, n - 1) {
                Some(i) => Some(i),
                None => if hits(self.slot_at(n - 1), hash, keys, k) {
                    Some(self.slot_at(n - 1).idx)
                } else {
                    None
                },
            }
        }
    }

    /// The first row with the key `k` that is filed under `hash`, in the order of the slots.
    pub(crate) open spec fn laid(
        &self,
        hash: u32,
        keys: Seq<Seq<bool>>,
        k: Seq<bool>,
    ) -> Option<TermIndex> {
        self.laid_to(hash, keys, k, self.width() as int)
    }

    /// The slot that a hash is probed from is one of the table's.
    proof fn lemma_home(&self, hash: u32)
        requires
            self.shape(),
        ensures
            0 <= (spread_of(hash) & self.mask) < self.slots@.len(),
    {
        lemma_mask(spread_of(hash), 0, self.mask);
    }

    /// A probe finds a row that is filed and has the key, from step `d` on, or none is filed
    /// there.
    proof fn lemma_found_from(&self, hash: u32, keys: Seq<Seq<bool>>, k: Seq<bool>, d: int)
        requires
            self.shape(),
            0 <= d,
        ensures
            match self.found_from(hash, keys, k, d) {
                Some(i) => self.holds(i, hash) && i < keys.len() && keys[i as int] == k,
                None => forall|e: int|
                    d <= e < self.width() && #[trigger] hits(
                        self.probed(hash, e),
                        hash,
                        keys,
                        k,
                    ) ==> exists|c: int|
                        d <= c < e && (#[trigger] self.probed(hash, c)).idx == EMPTY_SLOT,
            },
        decreases self.width() - d,
    {
        self.lemma_home(hash);
        if d < self.width() {
            let slot = self.probed(hash, d);
            if slot.idx != EMPTY_SLOT && !hits(slot, hash, keys, k) {
                self.lemma_found_from(hash, keys, k, d + 1);
                if self.found_from(hash, keys, k, d) is None {
                    assert forall|e: int|
                        d <= e < self.width() && #[trigger] hits(
                            self.probed(hash, e),
                            hash,
                            keys,
                            k,
                        ) implies exists|c: int|
                        d <= c < e && (#[trigger] self.probed(hash, c)).idx == EMPTY_SLOT by {
                        let c = choose|c: int|
                            d + 1 <= c < e && (#[trigger] self.probed(hash, c)).idx == EMPTY_SLOT;
                        assert(self.probed(hash, c).idx == EMPTY_SLOT);
                    }
                }
            }
        }
    }

    /// A lookup finds a row that is filed under the hash and has the key, if there is one.
    pub(crate) proof fn lemma_found(&self, hash: u32, keys: Seq<Seq<bool>>, k: Seq<bool>)
        requires
            self.shape(),
        ensures
            match self.found(hash, keys, k) {
                Some(i) => self.holds(i, hash) && i < keys.len() && keys[i as int] == k,
                None => forall|i: TermIndex| #[trigger]
                    self.holds(i, hash) && i < keys.len() ==> keys[i as int] != k,
            },
    {
        self.lemma_found_from(hash, keys, k, 0);
        if self.found(hash, keys, k) is None {
            let n = self.slots@.len() as int;
            let home = (spread_of(hash) & self.mask) as int;
            assert forall|i: TermIndex| #[trigger]
                self.holds(i, hash) && i < keys.len() implies keys[i as int] != k by {
                if keys[i as int] == k {
                    let t = choose|t: int|
                        0 <= t < self.slots@.len() && (#[trigger] self.slots@[t]).idx == i
                            && self.slots@[t].hash == hash;
                    assert(reachable(self.slots@, self.mask, t));
                    let e = choose|e: int|
                        0 <= e < n && #[trigger] step(home, e, n) == t && forall|c: int|
                            0 <= c < e ==> self.slots@[#[trigger] step(home, c, n)].idx
                                != EMPTY_SLOT;
                    assert(hits(self.probed(hash, e), hash, keys, k));
                    let c = choose|c: int|
                        0 <= c < e && (#[trigger] self.probed(hash, c)).idx == EMPTY_SLOT;
                    assert(self.slots@[step(home, c, n)].idx == EMPTY_SLOT);
                }
            }
        }
    }

    proof fn lemma_laid_to(&self, hash: u32, keys: Seq<Seq<bool>>, k: Seq<bool>, n: int)
        requires
            0 <= n <= self.width(),
        ensures
            match self.laid_to(hash, keys, k, n) {
                Some(i) => self.holds(i, hash) && i < keys.len() && keys[i as int] == k,
                None => forall|s: int| 0 <= s < n ==> !hits(#[trigger] self.slots@[s], hash, keys, k),
            },
        decreases n,
    {
        if n > 0 {
            self.lemma_laid_to(hash, keys, k, n - 1);
        }
    }

    /// In the order of the slots too there is a row that is filed under the hash and has the
    /// key, if there is one.
    pub(crate) proof fn lemma_laid(&self, hash: u32, keys: Seq<Seq<bool>>, k: Seq<bool>)
        ensures
            match self.laid(hash, keys, k) {
                Some(i) => self.holds(i, hash) && i < keys.len() && keys[i as int] == k,
                None => forall|i: TermIndex| #[trigger]
                    self.holds(i, hash) && i < keys.len() ==> keys[i as int] != k,
            },
    {
        self.lemma_laid_to(hash, keys, k, self.width() as int);
    }

    /// Only the keys of the rows filed under the hash matter.
    pub(crate) proof fn lemma_keys_matter(
        &self,
        hash: u32,
        a: Seq<Seq<bool>>,
        b: Seq<Seq<bool>>,
        k: Seq<bool>,
    )
        requires
            self.shape(),
            forall|i: TermIndex| #[trigger]
                self.holds(i, hash) ==> (i < a.len() && a[i as int] == k) == (i < b.len()
                    && b[i as int] == k),
        ensures
            self.found(hash, a, k) == self.found(hash, b, k),
            self.laid(hash, a, k) == self.laid(hash, b, k),
    {
        assert forall|s: int| 0 <= s < self.slots@.len() implies hits(
            #[trigger] self.slots@[s],
            hash,
            a,
            k,
        ) == hits(self.slots@[s], hash, b, k) by {
            if self.slots@[s].idx != EMPTY_SLOT && self.slots@[s].hash == hash {
                assert(self.holds(self.slots@[s].idx, hash));
            }
        }
        self.lemma_same_hits_found(hash, a, b, k, 0);
        self.lemma_same_hits_laid(hash, a, b, k, self.width() as int);
    }

    proof fn lemma_same_hits_found(
        &self,
        hash: u32,
        a: Seq<Seq<bool>>,
        b: Seq<Seq<bool>>,
        k: Seq<bool>,
        d: int,
    )
        requires
            self.shape(),
            0 <= d,
            forall|s: int|
                0 <= s < self.slots@.len() ==> hits(#[trigger] self.slots@[s], hash, a, k) == hits(
                    self.slots@[s],
                    hash,
                    b,
                    k,
                ),
        ensures
            self.found_from(hash, a, k, d) == self.found_from(hash, b, k, d),
        decreases self.width() - d,
    {
        self.lemma_home(hash);
        if d < self.width() {
            assert(hits(self.probed(hash, d), hash, a, k) == hits(
                self.probed(hash, d),
                hash,
                b,
                k,
            ));
            self.lemma_same_hits_found(hash, a, b, k, d + 1);
        }
    }

    proof fn lemma_same_hits_laid(
        &self,
        hash: u32,
        a: Seq<Seq<bool>>,
        b: Seq<Seq<bool>>,
        k: Seq<bool>,
        n: int,
    )
        requires
            0 <= n <= self.width(),
            forall|s: int|
                0 <= s < self.slots@.len() ==> hits(#[trigger] self.slots@[s], hash, a, k) == hits(
                    self.slots@[s],
                    hash,
                    b,
                    k,
                ),
        ensures
            self.laid_to(hash, a, k, n) == self.laid_to(hash, b, k, n),
        decreases n,
    {
        if n > 0 {
            self.lemma_same_hits_laid(hash, a, b, k, n - 1);
        }
    }

    /// Beyond a free slot a probe finds nothing, though that slot be filled.
    proof fn lemma_past(
        before: Self,
        after: Self,
        s: int,
        g: u32,
        keys: Seq<Seq<bool>>,
        k: Seq<bool>,
        e: int,
        f: int,
    )
        requires
            before.shape(),
            0 <= s < before.slots@.len(),
            before.slots@[s].idx == EMPTY_SLOT,
            after.slots@ == before.slots@.update(s, after.slots@[s]),
            after.mask == before.mask,
            0 <= e < f,
            e < before.slots@.len(),
            step((spread_of(g) & before.mask) as int, e, before.slots@.len() as int) == s,
        ensures
            after.found_from(g, keys, k, f) is None,
        decreases before.slots@.len() - f,
    {
        before.lemma_home(g);
        let n = before.slots@.len() as int;
        let home = (spread_of(g) & before.mask) as int;
        if f < n {
            let t = step(home, f, n);
            assert(t != s);
            let slot = after.probed(g, f);
            assert(slot == before.slots@[t]);
            if slot.idx != EMPTY_SLOT {
                if hits(slot, g, keys, k) {
                    assert(reachable(before.slots@, before.mask, t));
                    let c = choose|c: int|
                        0 <= c < n && #[trigger] step(home, c, n) == t && forall|b: int|
                            0 <= b < c ==> before.slots@[#[trigger] step(home, b, n)].idx
                                != EMPTY_SLOT;
                    assert(c == f);
                    assert(before.slots@[step(home, e, n)].idx != EMPTY_SLOT);
                }
                Self::lemma_past(before, after, s, g, keys, k, e, f + 1);
            }
        }
    }

    /// Filling the free slot that a probe has reached adds to the lookups under its hash, behind
    /// what they find, and to no other.
    proof fn lemma_filled(
        before: Self,
        after: Self,
        s: usize,
        d: int,
        idx: TermIndex,
        hash: u32,
        g: u32,
        keys: Seq<Seq<bool>>,
        k: Seq<bool>,
        e: int,
    )
        requires
            before.shape(),
            before.probing(hash, s, d),
            before.slots@[s as int].idx == EMPTY_SLOT,
            idx != EMPTY_SLOT,
            after.slots@ == before.slots@.update(s as int, Slot { idx, hash }),
            after.mask == before.mask,
            0 <= e,
            g == hash ==> e <= d,
        ensures
            after.found_from(g, keys, k, e) == or_new(
                before.found_from(g, keys, k, e),
                idx,
                hash,
                g,
                keys,
                k,
            ),
        decreases before.slots@.len() - e,
    {
        before.lemma_home(g);
        let n = before.slots@.len() as int;
        let home = (spread_of(g) & before.mask) as int;
        if e < n {
            let t = step(home, e, n);
            if t == s {
                assert(after.probed(g, e) == Slot { idx, hash });
                Self::lemma_past(before, after, s as int, g, keys, k, e, e + 1);
            } else {
                let slot = before.probed(g, e);
                assert(after.probed(g, e) == slot);
                if slot.idx != EMPTY_SLOT {
                    Self::lemma_filled(before, after, s, d, idx, hash, g, keys, k, e + 1);
                } else if g == hash {
                    assert(e < d);
                    assert(before.probed(hash, e).idx != EMPTY_SLOT);
                }
            }
        }
    }

    proof fn lemma_some_free(&self)
        requires
            self.shape(),
        ensures
            exists|s: int|
                0 <= s < self.slots@.len() && (#[trigger] self.slots@[s]).idx == EMPTY_SLOT,
    {
        if forall|s: int|
            0 <= s < self.slots@.len() ==> (#[trigger] self.slots@[s]).idx != EMPTY_SLOT {
            let t = taken(self.slots@);
            assert(forall|i: int| 0 <= i < t.len() ==> #[trigger] t[i]);
            bits::lemma_ones_all(t);
        }
    }

    /// A table of `n` free slots.
    fn with_slots(n: usize) -> (t: Self)
        requires
            MIN_SLOTS <= n,
            n & ((n - 1) as usize) == 0,
        ensures
            t.wf(),
            t.size() == 0,
            t.width() == n,
            forall|i: TermIndex, h: u32| !t.holds(i, h),
            forall|g: u32, keys: Seq<Seq<bool>>, k: Seq<bool>| #[trigger]
                t.found(g, keys, k) is None,
    {
        let mut slots: Vec<Slot> = Vec::with_capacity(n);
        while slots.len() < n
            invariant
                slots@.len() <= n,
                forall|s: int|
                    0 <= s < slots@.len() ==> (#[trigger] slots@[s]).idx == EMPTY_SLOT,
            decreases n - slots@.len(),
        {
            slots.push(Slot { idx: EMPTY_SLOT, hash: 0 });
        }
        let t = SlotTable { slots, mask: n - 1, count: 0 };
        proof {
            bits::lemma_ones_none(taken(slots@));
            assert forall|g: u32, keys: Seq<Seq<bool>>, k: Seq<bool>| #[trigger]
                t.found(g, keys, k) is None by {
                t.lemma_home(g);
                assert(t.probed(g, 0).idx == EMPTY_SLOT);
            }
        }
        t
    }

    /// A table of the smallest size.
    pub(crate) fn new() -> (t: Self)
        ensures
            t.wf(),
            t.size() == 0,
            t.width() == MIN_SLOTS,
            forall|i: TermIndex, h: u32| !t.holds(i, h),
            forall|g: u32, keys: Seq<Seq<bool>>, k: Seq<bool>| #[trigger]
                t.found(g, keys, k) is None,
    {
        proof {
            assert(16usize & 15usize == 0) by (bit_vector);
        }
        Self::with_slots(MIN_SLOTS)
    }

    /// Number of entries.
    pub(crate) fn len(&self) -> (n: usize)
        ensures
            n == self.size(),
    {
        self.count
    }

    /// The slots, for their allocation alone.
    pub(crate) fn slots(&self) -> (s: &Vec<Slot>)
        ensures
            s@.len() == self.width(),
    {
        &self.slots
    }

    /// The slot a folded hash is probed from.
    fn home(&self, hash: u32) -> (s: usize)
        requires
            self.shape(),
        ensures
            s == spread_of(hash) & self.mask,
            s < self.slots@.len(),
    {
        let x: usize = spread(hash);
        proof {
            lemma_mask(x, 0, self.mask);
        }
        x & self.mask
    }

    /// Slot `s`.
    pub(crate) closed spec fn slot_at(&self, s: int) -> Slot {
        self.slots@[s]
    }

    /// The slot `e` steps along the probe chain of `hash`.
    pub(crate) closed spec fn probed(&self, hash: u32, e: int) -> Slot {
        self.slots@[step((spread_of(hash) & self.mask) as int, e, self.slots@.len() as int)]
    }

    /// A probe for `hash` has passed `d` taken slots and stands at slot `s`.
    pub(crate) closed spec fn probing(&self, hash: u32, s: usize, d: int) -> bool {
        let home = (spread_of(hash) & self.mask) as int;
        &&& s < self.slots@.len()
        &&& 0 <= d < self.slots@.len()
        &&& 0 <= home < self.slots@.len()
        &&& s == step(home, d, self.slots@.len() as int)
        &&& forall|e: int| 0 <= e < d ==> (#[trigger] self.probed(hash, e)).idx != EMPTY_SLOT
    }

    /// What a probe has passed, and where it stands.
    pub(crate) proof fn lemma_probing(&self, hash: u32, s: usize, d: int)
        requires
            self.probing(hash, s, d),
        ensures
            self.probed(hash, d) == self.slot_at(s as int),
            0 <= d < self.width(),
            forall|e: int| 0 <= e < d ==> (#[trigger] self.probed(hash, e)).idx != EMPTY_SLOT,
    {
    }

    /// A probe standing at a taken slot has not seen the whole table.
    proof fn lemma_probe_ends(&self, hash: u32, s: usize, d: int)
        requires
            self.shape(),
            self.probing(hash, s, d),
            self.slots@[s as int].idx != EMPTY_SLOT,
        ensures
            d + 1 < self.slots@.len(),
            self.probing(
                hash,
                (if s == self.mask {
                    0
                } else {
                    s + 1
                }) as usize,
                d + 1,
            ),
    {
        let n = self.slots@.len() as int;
        let home = (spread_of(hash) & self.mask) as int;
        assert forall|e: int| 0 <= e < d + 1 implies (#[trigger] self.probed(hash, e)).idx
            != EMPTY_SLOT by {
            if e == d {
                assert(self.probed(hash, e) == self.slots@[s as int]);
            }
        }
        if d + 1 >= n {
            self.lemma_some_free();
            let f = choose|f: int|
                0 <= f < n && (#[trigger] self.slots@[f]).idx == EMPTY_SLOT;
            let e = if f >= home {
                f - home
            } else {
                f - home + n
            };
            assert(step(home, e, n) == f);
            assert(self.probed(hash, e).idx != EMPTY_SLOT);
        }
    }

    /// A probe that has reached a free slot has passed every row filed under its hash.
    pub(crate) proof fn lemma_probe_complete(&self, hash: u32, s: usize, d: int, idx: TermIndex)
        requires
            self.shape(),
            self.probing(hash, s, d),
            self.slot_at(s as int).idx == EMPTY_SLOT,
            self.holds(idx, hash),
        ensures
            exists|e: int| 0 <= e < d && (#[trigger] self.probed(hash, e)).idx == idx
                && self.probed(hash, e).hash == hash,
    {
        let t = choose|t: int|
            0 <= t < self.slots@.len() && (#[trigger] self.slots@[t]).idx == idx
                && self.slots@[t].hash == hash;
        assert(reachable(self.slots@, self.mask, t));
        let n = self.slots@.len() as int;
        let home = (spread_of(hash) & self.mask) as int;
        let e = choose|e: int|
            0 <= e < self.slots@.len() && #[trigger] step(home, e, n) == t && forall|c: int|
                0 <= c < e ==> self.slots@[#[trigger] step(home, c, n)].idx != EMPTY_SLOT;
        assert(self.probed(hash, e) == self.slots@[t]);
        if e >= d {
            if e == d {
                assert(t == s);
            } else {
                assert(self.slots@[step(home, d, n)].idx != EMPTY_SLOT);
            }
        }
    }

    /// A slot a probe has passed or stands at holds what is filed there.
    pub(crate) proof fn lemma_slot_holds(&self, s: usize)
        requires
            self.shape(),
            s < self.width(),
            self.slot_at(s as int).idx != EMPTY_SLOT,
        ensures
            self.holds(self.slot_at(s as int).idx, self.slot_at(s as int).hash),
    {
    }

    /// A probe of `hash` at its first slot.
    pub(crate) fn start(&self, hash: u32) -> (s: usize)
        requires
            self.shape(),
        ensures
            self.probing(hash, s, 0),
            s < self.width(),
    {
        self.home(hash)
    }

    /// The slot after a taken one on a probe chain.
    pub(crate) fn advance(&self, hash: u32, s: usize, Ghost(d): Ghost<int>) -> (t: usize)
        requires
            self.shape(),
            self.probing(hash, s, d),
            self.slot_at(s as int).idx != EMPTY_SLOT,
        ensures
            self.probing(hash, t, d + 1),
            t < self.width(),
            d + 1 < self.width(),
            self.probed(hash, d) == self.slot_at(s as int),
    {
        proof {
            lemma_mask(0, s, self.mask);
            self.lemma_probe_ends(hash, s, d);
        }
        (s + 1) & self.mask
    }

    /// Reads slot `s`.
    pub(crate) fn get(&self, s: usize) -> (slot: Slot)
        requires
            s < self.width(),
        ensures
            slot == self.slot_at(s as int),
    {
        self.slots[s]
    }

    /// Files row `idx` under `hash` in the free slot a probe has reached.
    fn fill(&mut self, s: usize, Ghost(d): Ghost<int>, idx: TermIndex, hash: u32)
        requires
            old(self).shape(),
            old(self).probing(hash, s, d),
            old(self).slot_at(s as int).idx == EMPTY_SLOT,
            idx != EMPTY_SLOT,
            old(self).size() + 1 < old(self).width(),
        ensures
            final(self).shape(),
            final(self).size() == old(self).size() + 1,
            final(self).width() == old(self).width(),
            forall|i: TermIndex, h: u32| #[trigger]
                final(self).holds(i, h) == (old(self).holds(i, h) || (i == idx && h == hash)),
            forall|g: u32, keys: Seq<Seq<bool>>, k: Seq<bool>| #[trigger]
                final(self).found(g, keys, k) == or_new(
                    old(self).found(g, keys, k),
                    idx,
                    hash,
                    g,
                    keys,
                    k,
                ),
    {
        let ghost before = self.slots@;
        self.slots.set(s, Slot { idx, hash });
        self.count = self.count + 1;
        proof {
            assert(taken(self.slots@) =~= taken(before).update(s as int, true));
            bits::lemma_ones_update(taken(before), s as int, true);
            assert forall|t: int|
                0 <= t < self.slots@.len() && (#[trigger] self.slots@[t]).idx
                    != EMPTY_SLOT implies reachable(self.slots@, self.mask, t) by {
                let n = self.slots@.len() as int;
                let home = (spread_of(self.slots@[t].hash) & self.mask) as int;
                if t == s {
                    assert(step(home, d, n) == t);
                    assert forall|e: int| 0 <= e < d implies self.slots@[#[trigger] step(
                        home,
                        e,
                        n,
                    )].idx != EMPTY_SLOT by {
                        assert(old(self).probed(hash, e).idx != EMPTY_SLOT);
                    }
                } else {
                    assert(before[t].idx != EMPTY_SLOT);
                    assert(reachable(before, self.mask, t));
                    let e = choose|e: int|
                        0 <= e < before.len() && #[trigger] step(home, e, n) == t && forall|c: int|
                            0 <= c < e ==> before[#[trigger] step(home, c, n)].idx != EMPTY_SLOT;
                    assert(step(home, e, n) == t);
                    assert forall|c: int| 0 <= c < e implies self.slots@[#[trigger] step(
                        home,
                        c,
                        n,
                    )].idx != EMPTY_SLOT by {
                        assert(before[step(home, c, n)].idx != EMPTY_SLOT);
                    }
                }
            }
            assert forall|g: u32, keys: Seq<Seq<bool>>, k: Seq<bool>| #[trigger]
                self.found(g, keys, k) == or_new(
                    old(self).found(g, keys, k),
                    idx,
                    hash,
                    g,
                    keys,
                    k,
                ) by {
                Self::lemma_filled(*old(self), *self, s, d, idx, hash, g, keys, k, 0);
            }
            assert forall|i: TermIndex, h: u32| #[trigger] self.holds(i, h) == (old(self).holds(
                i,
                h,
            ) || (i == idx && h == hash)) by {
                if i == idx && h == hash {
                    assert(self.slots@[s as int].idx == idx);
                }
                if old(self).holds(i, h) {
                    let t = choose|t: int|
                        0 <= t < before.len() && (#[trigger] before[t]).idx == i && before[t].hash
                            == h;
                    assert(t != s);
                    assert(self.slots@[t] == before[t]);
                }
                if self.holds(i, h) && !(i == idx && h == hash) {
                    let t = choose|t: int|
                        0 <= t < self.slots@.len() && (#[trigger] self.slots@[t]).idx == i
                            && self.slots@[t].hash == h;
                    assert(t != s);
                    assert(before[t] == self.slots@[t]);
                }
            }
        }
    }

    /// Files row `idx` under `hash` in the first free slot on its probe chain.
    fn place(&mut self, idx: TermIndex, hash: u32)
        requires
            old(self).shape(),
            idx != EMPTY_SLOT,
            old(self).size() + 1 < old(self).width(),
        ensures
            final(self).shape(),
            final(self).size() == old(self).size() + 1,
            final(self).width() == old(self).width(),
            forall|i: TermIndex, h: u32| #[trigger]
                final(self).holds(i, h) == (old(self).holds(i, h) || (i == idx && h == hash)),
            forall|g: u32, keys: Seq<Seq<bool>>, k: Seq<bool>| #[trigger]
                final(self).found(g, keys, k) == or_new(
                    old(self).found(g, keys, k),
                    idx,
                    hash,
                    g,
                    keys,
                    k,
                ),
    {
        let mut s: usize = self.start(hash);
        let ghost mut d: int = 0;
        while self.slots[s].idx != EMPTY_SLOT
            invariant
                self.shape(),
                *self == *old(self),
                self.probing(hash, s, d),
            decreases self.slots@.len() - d,
        {
            s = self.advance(hash, s, Ghost(d));
            proof {
                d = d + 1;
            }
        }
        self.fill(s, Ghost(d), idx, hash);
    }

    /// Rebuilds the table at `new_cap` slots, rounded up, keeping every entry. A table that
    /// holds entries never shrinks.
    pub(crate) fn rehash_to(&mut self, new_cap: usize)
        requires
            old(self).wf(),
            2 * new_cap <= usize::MAX,
        ensures
            final(self).wf(),
            final(self).size() == old(self).size(),
            final(self).width() == (if old(self).size() > 0 && old(self).width() >= slots_for(
                new_cap as int,
            ) {
                old(self).width() as int
            } else {
                slots_for(new_cap as int)
            }),
            final(self).width() >= new_cap,
            forall|i: TermIndex, h: u32| #[trigger]
                final(self).holds(i, h) == old(self).holds(i, h),
            forall|g: u32, keys: Seq<Seq<bool>>, k: Seq<bool>| #[trigger]
                final(self).found(g, keys, k) == (if old(self).size() > 0 && old(self).width()
                    >= slots_for(new_cap as int) {
                    old(self).found(g, keys, k)
                } else {
                    old(self).laid(g, keys, k)
                }),
    {
        let wanted: usize = if new_cap < MIN_SLOTS {
            MIN_SLOTS
        } else {
            new_cap
        };
        let n: usize = ceil_power_of_two(wanted);
        if n <= self.slots.len() && self.count > 0 {
            return;
        }
        let mut fresh = Self::with_slots(n);
        let mut k: usize = 0;
        proof {
            assert(taken(self.slots@).take(0) =~= Seq::<bool>::empty());
        }
        while k < self.slots.len()
            invariant
                k <= self.slots@.len(),
                self.wf(),
                *self == *old(self),
                fresh.shape(),
                fresh.width() == n,
                n > self.slots@.len() || self.count == 0,
                fresh.size() == bits::ones(taken(self.slots@).take(k as int)),
                forall|g: u32, keys: Seq<Seq<bool>>, key: Seq<bool>| #[trigger]
                    fresh.found(g, keys, key) == self.laid_to(g, keys, key, k as int),
                forall|i: TermIndex, h: u32| #[trigger]
                    fresh.holds(i, h) == (i != EMPTY_SLOT && exists|s: int|
                        0 <= s < k && (#[trigger] self.slots@[s]).idx == i && self.slots@[s].hash
                            == h),
            decreases self.slots@.len() - k,
        {
            let slot: Slot = self.slots[k];
            let ghost before = fresh;
            let ghost t = taken(self.slots@);
            proof {
                assert(t.take(k + 1).drop_last() =~= t.take(k as int));
                bits::lemma_ones_take(t, k + 1);
            }
            if slot.idx != EMPTY_SLOT {
                fresh.place(slot.idx, slot.hash);
            }
            proof {
                assert forall|g: u32, keys: Seq<Seq<bool>>, key: Seq<bool>| #[trigger]
                    fresh.found(g, keys, key) == self.laid_to(g, keys, key, k + 1) by {
                    assert(before.found(g, keys, key) == self.laid_to(g, keys, key, k as int));
                }
                assert forall|i: TermIndex, h: u32| #[trigger] fresh.holds(i, h) == (i
                    != EMPTY_SLOT && exists|s: int|
                    0 <= s < k + 1 && (#[trigger] self.slots@[s]).idx == i && self.slots@[s].hash
                        == h) by {
                    if i != EMPTY_SLOT {
                        if before.holds(i, h) {
                            let s = choose|s: int|
                                0 <= s < k && (#[trigger] self.slots@[s]).idx == i
                                    && self.slots@[s].hash == h;
                            assert(self.slots@[s].idx == i);
                        }
                        if i == slot.idx && h == slot.hash {
                            assert(self.slots@[k as int].idx == i);
                        }
                    }
                }
            }
            k += 1;
        }
        proof {
            assert(taken(self.slots@).take(k as int) =~= taken(self.slots@));
            assert forall|i: TermIndex, h: u32| #[trigger] fresh.holds(i, h) == self.holds(
                i,
                h,
            ) by {
                if self.holds(i, h) {
                    let s = choose|s: int|
                        0 <= s < self.slots@.len() && (#[trigger] self.slots@[s]).idx == i
                            && self.slots@[s].hash == h;
                    assert(self.slots@[s].idx == i);
                }
            }
        }
        *self = fresh;
    }

    /// Grows the table when the next entry would exceed a 0.7 load factor.
    pub(crate) fn rehash_if_needed(&mut self)
        requires
            old(self).wf(),
            64 * (old(self).size() + 1) <= usize::MAX,
        ensures
            final(self).wf(),
            final(self).size() == old(self).size(),
            (final(self).size() + 1) * 10 < final(self).width() * 7,
            (old(self).size() + 1) * 10 < old(self).width() * 7 ==> final(self).width() == old(
                self,
            ).width(),
            forall|i: TermIndex, h: u32| #[trigger]
                final(self).holds(i, h) == old(self).holds(i, h),
            forall|g: u32, keys: Seq<Seq<bool>>, k: Seq<bool>| #[trigger]
                final(self).found(g, keys, k) == (if (old(self).size() + 1) * 10 < old(
                    self,
                ).width() * 7 {
                    old(self).found(g, keys, k)
                } else {
                    old(self).laid(g, keys, k)
                }),
    {
        proof {
            lemma_doubled_to(1, 2 * self.slots@.len() as int);
        }
        // `(count + 1) * 10 >= slots * 7`, kept below the word size.
        if (self.count + 1) * 10 / 7 >= self.slots.len() {
            self.rehash_to(self.slots.len() * 2);
        }
    }

    /// Files row `idx` under `hash`, growing the table first if it is nearly full.
    pub(crate) fn insert_slot(&mut self, idx: TermIndex, hash: u32)
        requires
            old(self).wf(),
            64 * (old(self).size() + 1) <= usize::MAX,
            idx != EMPTY_SLOT,
        ensures
            final(self).wf(),
            (old(self).size() + 1) * 10 < old(self).width() * 7 ==> final(self).width() == old(
                self,
            ).width(),
            final(self).size() == old(self).size() + 1,
            forall|i: TermIndex, h: u32| #[trigger]
                final(self).holds(i, h) == (old(self).holds(i, h) || (i == idx && h == hash)),
            forall|g: u32, keys: Seq<Seq<bool>>, k: Seq<bool>| #[trigger]
                final(self).found(g, keys, k) == or_new(
                    if (old(self).size() + 1) * 10 < old(self).width() * 7 {
                        old(self).found(g, keys, k)
                    } else {
                        old(self).laid(g, keys, k)
                    },
                    idx,
                    hash,
                    g,
                    keys,
                    k,
                ),
    {
        self.rehash_if_needed();
        self.place(idx, hash);
    }

    /// Files row `idx` under `hash` in the free slot a probe of an unfull table has reached.
    pub(crate) fn insert_at(&mut self, s: usize, Ghost(d): Ghost<int>, idx: TermIndex, hash: u32)
        requires
            old(self).wf(),
            (old(self).size() + 1) * 10 < old(self).width() * 7,
            old(self).probing(hash, s, d),
            old(self).slot_at(s as int).idx == EMPTY_SLOT,
            idx != EMPTY_SLOT,
        ensures
            final(self).wf(),
            final(self).width() == old(self).width(),
            final(self).size() == old(self).size() + 1,
            forall|i: TermIndex, h: u32| #[trigger]
                final(self).holds(i, h) == (old(self).holds(i, h) || (i == idx && h == hash)),
            forall|g: u32, keys: Seq<Seq<bool>>, k: Seq<bool>| #[trigger]
                final(self).found(g, keys, k) == or_new(
                    old(self).found(g, keys, k),
                    idx,
                    hash,
                    g,
                    keys,
                    k,
                ),
    {
        self.fill(s, Ghost(d), idx, hash);
    }
}

/// A table gets enough slots and fewer than twice as many as asked for, once that is more than
/// the least.
pub proof fn law_slots_suffice(n: int)
    ensures
        slots_for(n) >= n,
        slots_for(n) >= MIN_SLOTS,
        n >= MIN_SLOTS ==> slots_for(n) < 2 * n,
        n <= MIN_SLOTS ==> slots_for(n) == MIN_SLOTS,
{
    reveal_with_fuel(doubled_to, 6);
    lemma_doubled(
        1,
        if n < MIN_SLOTS {
            MIN_SLOTS as int
        } else {
            n
        },
    );
}

/// Doubling stops at the first value that is large enough.
proof fn lemma_doubled(p: int, n: int)
    requires
        0 < p <= n,
    ensures
        n <= doubled_to(p, n) < 2 * n,
    decreases n - p,
{
    if p < n {
        if 2 * p <= n {
            lemma_doubled(2 * p, n);
        } else {
            reveal_with_fuel(doubled_to, 3);
        }
    }
}

} // verus!
