//! The prefix pool: per-client allocation of successive IPv6 prefixes.

use crate::addr::{lemma_pow2_128, pow2_u128, Ipv6Address};
use vstd::arithmetic::div_mod::{
    lemma_fundamental_div_mod, lemma_mod_multiples_vanish, lemma_small_mod,
};
use vstd::arithmetic::mul::{
    lemma_mul_is_commutative, lemma_mul_is_distributive_sub, lemma_mul_inequality,
};
use vstd::arithmetic::power2::{
    lemma2_to64, lemma_pow2_adds, lemma_pow2_pos, lemma_pow2_strictly_increases, pow2,
};
use vstd::prelude::*;

verus! {

/// A DHCPv6 client, named by its identifier and reachable at a
/// link-local address.
#[derive(Clone, Debug)]
pub struct Dhcpv6Client {
    pub id: String,
    pub link_local_address: Ipv6Address,
}

/// An IPv6 prefix delegated to a client: a base address together with
/// the number of leading address bits that the prefix covers.
#[derive(Clone, Copy, Debug, PartialEq, Eq, Structural)]
pub struct Ipv6Prefix {
    pub base_address: Ipv6Address,
    pub prefix_length: u8,
}

/// The address obtained by advancing `base` by `offset` prefix-sized
/// steps: the offset sits immediately above the prefix boundary, and the
/// sum wraps around at 128 bits.
pub open spec fn advance_value(base: u128, offset: nat, prefix_length: u8) -> u128
    recommends
        prefix_length <= 128,
{
    (((base as nat) + offset * pow2((128 - prefix_length) as nat)) % pow2(128)) as u128
}

/// The mathematical state of a [`Dhcpv6Server`]: its configuration and
/// the table of live leases.
pub struct PoolModel {
    pub pool_start: u128,
    pub pool_size: u32,
    pub prefix_length: u8,
    pub table: Seq<(Seq<char>, Ipv6Prefix)>,
}

impl PoolModel {
    /// Whether `id` holds a live lease.
    pub open spec fn contains(self, id: Seq<char>) -> bool {
        exists|i: int| 0 <= i < self.table.len() && self.table[i].0 == id
    }

    /// The position of `id`'s lease in the table.
    pub open spec fn index_of(self, id: Seq<char>) -> int {
        choose|i: int| 0 <= i < self.table.len() && self.table[i].0 == id
    }

    /// The prefix leased to `id`.
    pub open spec fn prefix_of(self, id: Seq<char>) -> Ipv6Prefix {
        self.table[self.index_of(id)].1
    }

    /// No client identifier appears twice in the table.
    pub open spec fn keys_unique(self) -> bool {
        forall|i: int, j: int|
            0 <= i < j < self.table.len() ==> self.table[i].0 != self.table[j].0
    }

    /// Well-formedness: unique keys, no more live leases than the pool
    /// holds, and a prefix length that fits a 128-bit address.
    pub open spec fn wf(self) -> bool {
        &&& self.keys_unique()
        &&& self.table.len() <= self.pool_size
        &&& self.prefix_length <= 128
    }

    /// The prefix that the next fresh client would receive: its offset
    /// is the current number of live leases.
    pub open spec fn next_prefix(self) -> Ipv6Prefix {
        Ipv6Prefix {
            base_address: (Ipv6Address {
                value: advance_value(self.pool_start, self.table.len(), self.prefix_length),
            }),
            prefix_length: self.prefix_length,
        }
    }

    /// What `allocate_prefix` does: an existing lease is returned
    /// unchanged; otherwise, if the pool still has room, the next
    /// prefix in sequence is recorded for `id` and returned; an
    /// exhausted pool yields nothing and leaves the state alone.
    pub open spec fn spec_allocate(self, id: Seq<char>) -> (Option<Ipv6Prefix>, PoolModel) {
        if self.contains(id) {
            (Some(self.prefix_of(id)), self)
        } else if self.table.len() >= self.pool_size {
            (None, self)
        } else {
            (
                Some(self.next_prefix()),
                PoolModel { table: self.table.push((id, self.next_prefix())), ..self },
            )
        }
    }

    /// What `release_prefix` does: the lease of `id` is dropped if
    /// present; releasing an absent identifier changes nothing.
    pub open spec fn spec_release(self, id: Seq<char>) -> PoolModel {
        if self.contains(id) {
            PoolModel { table: self.table.remove(self.index_of(id)), ..self }
        } else {
            self
        }
    }
}

/// Reducing the offset modulo `2^prefix_length` before the shift keeps
/// the increment inside 128 bits without changing the advanced address.
proof fn lemma_advance_mod(base: u128, offset: nat, prefix_length: u8)
    requires
        1 <= prefix_length <= 128,
    ensures
        (offset % pow2(prefix_length as nat)) * pow2((128 - prefix_length) as nat) < pow2(128),
        ((base as nat) + (offset % pow2(prefix_length as nat)) * pow2(
            (128 - prefix_length) as nat,
        )) % pow2(128) == ((base as nat) + offset * pow2((128 - prefix_length) as nat)) % pow2(
            128,
        ),
{
    let p = prefix_length as nat;
    let f = (128 - prefix_length) as nat;
    lemma_pow2_pos(p);
    lemma_pow2_pos(f);
    lemma_pow2_adds(p, f);
    let om = offset % pow2(p);
    let inc = om * pow2(f);
    assert(om * pow2(f) <= (pow2(p) - 1) * pow2(f)) by {
        lemma_mul_inequality(om as int, pow2(p) as int - 1, pow2(f) as int);
    }
    assert(pow2(f) * (pow2(p) - 1) == pow2(f) * pow2(p) - pow2(f)) by {
        lemma_mul_is_distributive_sub(pow2(f) as int, pow2(p) as int, 1);
    }
    lemma_mul_is_commutative(pow2(f) as int, pow2(p) as int - 1);
    lemma_mul_is_commutative(pow2(f) as int, pow2(p) as int);
    assert(inc <= pow2(128) - pow2(f));
    let q = offset as int / pow2(p) as int;
    lemma_fundamental_div_mod(offset as int, pow2(p) as int);
    assert(offset as int * pow2(f) as int == q * (pow2(p) as int * pow2(f) as int) + om as int
        * pow2(f) as int) by (nonlinear_arith)
        requires
            offset as int == pow2(p) as int * q + om as int,
    ;
    assert(pow2(128) as int * q + ((base as nat) + inc) as int == (base as nat) as int + offset
        as int * pow2(f) as int);
    lemma_mod_multiples_vanish(q, ((base as nat) + inc) as int, pow2(128) as int);
}

/// The state after allocating for each identifier of `ids` in turn,
/// left to right.
pub open spec fn allocate_all(m: PoolModel, ids: Seq<Seq<char>>) -> PoolModel
    decreases ids.len(),
{
    if ids.len() == 0 {
        m
    } else {
        allocate_all(m, ids.drop_last()).spec_allocate(ids.last()).1
    }
}

/// Allocation is idempotent: once `id` has been granted a prefix,
/// allocating again for `id` returns the same prefix and leaves the
/// state untouched; a failed allocation also changes nothing, so it
/// fails again.
pub proof fn lemma_allocate_idempotent(m: PoolModel, id: Seq<char>)
    requires
        m.wf(),
    ensures
        ({
            let (r1, m1) = m.spec_allocate(id);
            let (r2, m2) = m1.spec_allocate(id);
            r2 == r1 && m2 == m1
        }),
{
    let (r1, m1) = m.spec_allocate(id);
    if !m.contains(id) && m.table.len() < m.pool_size {
        let p = m.next_prefix();
        assert(m1.table == m.table.push((id, p)));
        assert(m1.table[m.table.len() as int].0 == id);
        assert(m1.contains(id));
        let k = m1.index_of(id);
        assert(0 <= k < m1.table.len() && m1.table[k].0 == id);
        if k < m.table.len() {
            assert(m.table[k].0 == id);
            assert(m.contains(id));
        }
        assert(k == m.table.len());
        assert(m1.prefix_of(id) == p);
    }
}

/// A pool serves exactly as many distinct clients as it is sized for:
/// starting from an empty table, every allocation in a run of distinct
/// identifiers no longer than the pool size succeeds, each one growing
/// the table by one, and the resulting table holds precisely those
/// identifiers.
pub proof fn lemma_pool_capacity(m: PoolModel, ids: Seq<Seq<char>>)
    requires
        m.wf(),
        m.table.len() == 0,
        ids.len() <= m.pool_size,
        forall|i: int, j: int| 0 <= i < j < ids.len() ==> ids[i] != ids[j],
    ensures
        allocate_all(m, ids).wf(),
        allocate_all(m, ids).table.len() == ids.len(),
        allocate_all(m, ids).pool_size == m.pool_size,
        forall|i: int|
            0 <= i < ids.len() ==> (#[trigger] allocate_all(m, ids.take(i))).spec_allocate(
                ids[i],
            ).0 is Some,
        forall|id: Seq<char>| #[trigger] allocate_all(m, ids).contains(id) <==> ids.contains(id),
    decreases ids.len(),
{
    if ids.len() == 0 {
        assert(forall|id: Seq<char>| !allocate_all(m, ids).contains(id));
        assert(forall|id: Seq<char>| !ids.contains(id));
    } else {
        let prev_ids = ids.drop_last();
        let last = ids.last();
        lemma_pool_capacity(m, prev_ids);
        let mp = allocate_all(m, prev_ids);
        assert(!prev_ids.contains(last));
        assert(!mp.contains(last));
        assert(mp.table.len() < mp.pool_size);
        let p = mp.next_prefix();
        let mf = allocate_all(m, ids);
        assert(mf == mp.spec_allocate(last).1);
        assert(mf.table == mp.table.push((last, p)));
        assert(mf.keys_unique()) by {
            assert forall|i: int, j: int|
                0 <= i < j < mf.table.len() implies mf.table[i].0 != mf.table[j].0 by {
                if j < mp.table.len() {
                    assert(mf.table[i] == mp.table[i]);
                    assert(mf.table[j] == mp.table[j]);
                } else {
                    assert(mf.table[i] == mp.table[i]);
                    assert(mf.table[j].0 == last);
                    if mp.table[i].0 == last {
                        assert(mp.contains(last));
                    }
                }
            }
        }
        assert forall|id: Seq<char>| #[trigger] mf.contains(id) <==> ids.contains(id) by {
            if mf.contains(id) {
                let k = mf.index_of(id);
                assert(0 <= k < mf.table.len() && mf.table[k].0 == id);
                if k < mp.table.len() {
                    assert(mp.table[k].0 == id);
                    assert(mp.contains(id));
                    assert(prev_ids.contains(id));
                    let w = choose|w: int| 0 <= w < prev_ids.len() && prev_ids[w] == id;
                    assert(ids[w] == id);
                    assert(ids.contains(id));
                } else {
                    assert(id == last);
                    assert(ids[ids.len() - 1] == id);
                    assert(ids.contains(id));
                }
            }
            if ids.contains(id) {
                let w = choose|w: int| 0 <= w < ids.len() && ids[w] == id;
                if w < ids.len() - 1 {
                    assert(prev_ids[w] == id);
                    assert(prev_ids.contains(id));
                    assert(mp.contains(id));
                    let k = mp.index_of(id);
                    assert(mf.table[k].0 == id);
                    assert(mf.contains(id));
                } else {
                    assert(mf.table[mp.table.len() as int].0 == id);
                    assert(mf.contains(id));
                }
            }
        }
        assert forall|i: int|
            0 <= i < ids.len() implies (#[trigger] allocate_all(m, ids.take(i))).spec_allocate(
            ids[i],
        ).0 is Some by {
            if i < ids.len() - 1 {
                assert(ids.take(i) =~= prev_ids.take(i));
                assert(prev_ids[i] == ids[i]);
            } else {
                assert(ids.take(i) =~= prev_ids);
                assert(allocate_all(m, ids.take(i)) == mp);
                assert(mp.spec_allocate(last).0 is Some);
            }
        }
    }
}

/// A full pool turns a fresh identifier away: with as many live leases
/// as the pool is sized for, allocation for an identifier without a
/// lease yields nothing and leaves the state untouched.
pub proof fn lemma_pool_exhausted(m: PoolModel, id: Seq<char>)
    requires
        m.wf(),
        m.table.len() == m.pool_size,
        !m.contains(id),
    ensures
        m.spec_allocate(id).0 is None,
        m.spec_allocate(id).1 == m,
{
}

/// Exactly as many distinct clients as the pool is sized for can be
/// served: once a run of `pool_size` distinct identifiers has filled an
/// initially empty pool, one more distinct identifier is refused.
pub proof fn lemma_full_pool_rejects_next(m: PoolModel, ids: Seq<Seq<char>>, id: Seq<char>)
    requires
        m.wf(),
        m.table.len() == 0,
        ids.len() == m.pool_size,
        forall|i: int, j: int| 0 <= i < j < ids.len() ==> ids[i] != ids[j],
        !ids.contains(id),
    ensures
        allocate_all(m, ids).spec_allocate(id).0 is None,
        allocate_all(m, ids).spec_allocate(id).1 == allocate_all(m, ids),
{
    lemma_pool_capacity(m, ids);
    lemma_pool_exhausted(allocate_all(m, ids), id);
}

/// The DHCPv6 server: the pool configuration and the table of live
/// leases, keyed by client identifier.
pub struct Dhcpv6Server {
    pub pool_start: Ipv6Address,
    pub pool_size: u32,
    pub prefix_length: u8,
    pub allocated_prefixes: Vec<(String, Ipv6Prefix)>,
}

impl View for Dhcpv6Server {
    type V = PoolModel;

    open spec fn view(&self) -> PoolModel {
        PoolModel {
            pool_start: self.pool_start.value,
            pool_size: self.pool_size,
            prefix_length: self.prefix_length,
            table: self.allocated_prefixes@.map_values(
                |e: (String, Ipv6Prefix)| (e.0@, e.1),
            ),
        }
    }
}

impl Dhcpv6Server {
    /// Creates a server with an empty lease table.
    pub fn new(pool_start: Ipv6Address, pool_size: u32, prefix_length: u8) -> (r: Self)
        requires
            prefix_length <= 128,
        ensures
            r@ == (PoolModel {
                pool_start: pool_start.value,
                pool_size,
                prefix_length,
                table: Seq::empty(),
            }),
            r@.wf(),
    {
        let r = Self { pool_start, pool_size, prefix_length, allocated_prefixes: Vec::new() };
        proof {
            assert(r@.table =~= Seq::<(Seq<char>, Ipv6Prefix)>::empty());
        }
        r
    }

    /// The base address of the prefix at position `offset` in the pool:
    /// `pool_start` advanced by `offset` steps of `2^(128 - prefix_length)`,
    /// wrapping around at 128 bits.
    pub fn calculate_next_prefix(pool_start: Ipv6Address, offset: u32, prefix_length: u8) -> (r:
        Ipv6Address)
        requires
            prefix_length <= 128,
        ensures
            r.value == advance_value(pool_start.value, offset as nat, prefix_length),
    {
        proof {
            lemma_pow2_128();
        }
        if prefix_length == 0 {
            proof {
                lemma_pow2_pos(128);
                lemma_mod_multiples_vanish(
                    offset as int,
                    pool_start.value as int,
                    pow2(128) as int,
                );
                lemma_mul_is_commutative(offset as int, pow2(128) as int);
                assert((pool_start.value as nat + (offset as nat) * pow2(128)) % pow2(128)
                    == (pool_start.value as nat) % pow2(128));
                lemma_small_mod(pool_start.value as nat, pow2(128));
            }
            return pool_start;
        }
        let ghost p = prefix_length as nat;
        let offset_mod: u128 = if prefix_length >= 32 {
            proof {
                lemma2_to64();
                if p > 32 {
                    lemma_pow2_strictly_increases(32, p);
                }
                lemma_small_mod(offset as nat, pow2(p));
            }
            offset as u128
        } else {
            let modulus = pow2_u128(prefix_length as u32);
            proof {
                lemma_pow2_pos(p);
            }
            (offset as u128) % modulus
        };
        let step = pow2_u128(128 - prefix_length as u32);
        proof {
            lemma_advance_mod(pool_start.value, offset as nat, prefix_length);
        }
        let increment = offset_mod * step;
        let r = pool_start.value.wrapping_add(increment);
        proof {
            let sum = pool_start.value as int + increment as int;
            let m = pow2(128) as int;
            if sum <= u128::MAX as int {
                lemma_small_mod(sum as nat, pow2(128));
            } else {
                lemma_mod_multiples_vanish(1, sum - m, m);
                lemma_small_mod((sum - m) as nat, pow2(128));
            }
        }
        Ipv6Address { value: r }
    }

    /// Looks up the table position that holds `key`'s lease, if any.
    fn find_index(&self, key: &String) -> (r: Option<usize>)
        ensures
            match r {
                Some(i) => i < self@.table.len() && self@.table[i as int].0 == key@,
                None => !self@.contains(key@),
            },
    {
        let n = self.allocated_prefixes.len();
        let mut i: usize = 0;
        while i < n
            invariant
                n == self.allocated_prefixes.len(),
                i <= n,
                forall|j: int| 0 <= j < i ==> self@.table[j].0 != key@,
            decreases n - i,
        {
            if self.allocated_prefixes[i].0 == *key {
                return Some(i);
            }
            i = i + 1;
        }
        None
    }

    /// Returns the lease of `client_id`, creating one at the next free
    /// offset when the identifier is new and the pool still has room.
    /// An exhausted pool yields `None` and leaves the table alone.
    pub fn allocate_prefix(&mut self, client_id: &str) -> (r: Option<Ipv6Prefix>)
        requires
            old(self)@.wf(),
        ensures
            final(self)@.wf(),
            r == old(self)@.spec_allocate(client_id@).0,
            final(self)@ == old(self)@.spec_allocate(client_id@).1,
    {
        let key: String = client_id.to_owned();
        match self.find_index(&key) {
            Some(i) => {
                proof {
                    let ghost m = self@;
                    assert(m.contains(client_id@));
                    let k = m.index_of(client_id@);
                    assert(0 <= k < m.table.len() && m.table[k].0 == client_id@);
                    assert(k == i as int);
                }
                Some(self.allocated_prefixes[i].1)
            },
            None => {
                let offset = self.allocated_prefixes.len();
                if offset >= self.pool_size as usize {
                    return None;  // no available prefixes
                }
                let base_address = Self::calculate_next_prefix(
                    self.pool_start,
                    offset as u32,
                    self.prefix_length,
                );
                let prefix = Ipv6Prefix { base_address, prefix_length: self.prefix_length };
                let ghost m = self@;
                self.allocated_prefixes.push((key, prefix));
                proof {
                    assert(self@.table =~= m.table.push((client_id@, prefix)));
                    assert(prefix == m.next_prefix());
                    assert(self@ == m.spec_allocate(client_id@).1);
                }
                Some(prefix)
            },
        }
    }

    /// Drops the lease of `client_id`; an absent identifier is a no-op.
    pub fn release_prefix(&mut self, client_id: &str)
        requires
            old(self)@.wf(),
        ensures
            final(self)@.wf(),
            final(self)@ == old(self)@.spec_release(client_id@),
    {
        let key: String = client_id.to_owned();
        match self.find_index(&key) {
            Some(i) => {
                let ghost m = self@;
                self.allocated_prefixes.remove(i);
                proof {
                    assert(m.contains(client_id@));
                    let k = m.index_of(client_id@);
                    assert(0 <= k < m.table.len() && m.table[k].0 == client_id@);
                    assert(k == i as int);
                    assert(self@.table =~= m.table.remove(i as int));
                    assert(self@ == m.spec_release(client_id@));
                    assert forall|a: int, b: int|
                        0 <= a < b < self@.table.len() implies self@.table[a].0
                        != self@.table[b].0 by {
                        let a0 = if a < i as int { a } else { a + 1 };
                        let b0 = if b < i as int { b } else { b + 1 };
                        assert(self@.table[a] == m.table[a0]);
                        assert(self@.table[b] == m.table[b0]);
                    }
                }
            },
            None => {},
        }
    }
}

} // verus!
