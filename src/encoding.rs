use vstd::prelude::*;
use vstd::std_specs::cmp::PartialEqSpec;

verus! {

/// The value type carried in coded symbols: a group under `xor` where every
/// element is its own inverse, with a 64-bit hash.
pub trait Symbol: Sized + Copy {
    spec fn zero_spec() -> Self;

    spec fn xor_spec(&self, other: &Self) -> Self;

    spec fn hash_spec(&self) -> u64;

    fn zero() -> (r: Self)
        ensures
            r == Self::zero_spec(),
    ;

    fn xor(&self, other: &Self) -> (r: Self)
        ensures
            r == self.xor_spec(other),
    ;

    fn hash(&self) -> (r: u64)
        ensures
            r == self.hash_spec(),
    ;

    /// `(a ^ b) ^ b == a`.
    proof fn lemma_xor_cancel(a: Self, b: Self)
        ensures
            a.xor_spec(&b).xor_spec(&b) == a,
    ;

    /// `0 ^ a == a`.
    proof fn lemma_zero_xor(a: Self)
        ensures
            Self::zero_spec().xor_spec(&a) == a,
    ;

    /// `(a ^ b) ^ c == (a ^ c) ^ b`.
    proof fn lemma_xor_exchange(a: Self, b: Self, c: Self)
        ensures
            a.xor_spec(&b).xor_spec(&c) == a.xor_spec(&c).xor_spec(&b),
    ;
}

/// The spacing rule of the index recurrence: given the previous index and the
/// freshly advanced generator state, the distance to the next index.
/// Both peers must use the same rule.
pub trait IndexGap {
    spec fn gap_spec(last_idx: u64, r: u64) -> u64;

    fn gap(last_idx: u64, r: u64) -> (d: u64)
        ensures
            d == Self::gap_spec(last_idx, r),
    ;
}

/// The multiplier of the index generator.
pub const MAPPING_MULTIPLIER: u64 = 0xda942042e4dd58b5;

#[derive(Clone, Copy, Debug, PartialEq, Eq, Structural)]
pub enum Direction {
    ADD,
    REMOVE,
}

impl Direction {
    pub open spec fn sign(self) -> i64 {
        match self {
            Direction::ADD => 1i64,
            Direction::REMOVE => -1i64,
        }
    }

    pub fn to_i64(self) -> (r: i64)
        ensures
            r == self.sign(),
    {
        match self {
            Direction::ADD => 1,
            Direction::REMOVE => -1,
        }
    }
}

#[derive(Clone, Copy, Debug, PartialEq, Eq, Structural)]
pub enum Error {
    InvalidDegree,
    InvalidSize,
    DecodeFailed,
}

#[derive(Clone, Copy, Debug, PartialEq, Eq, Structural)]
pub struct SymbolMapping {
    pub source_idx: u64,
    pub coded_idx: u64,
}

#[derive(Clone, Copy, Debug, PartialEq, Eq, Structural)]
pub struct RandomMapping {
    pub prng: u64,
    pub last_idx: u64,
}

#[derive(Clone, Copy)]
pub struct HashedSymbol<T: Symbol + Copy> {
    pub symbol: T,
    pub hash: u64,
}

#[derive(Clone, Copy, PartialEq, Debug)]
pub struct CodedSymbol<T: Symbol + Copy> {
    pub symbol: T,
    pub hash: u64,
    pub count: i64,
}

/// The generator state after one step from `prng`.
pub open spec fn next_prng(prng: u64) -> u64 {
    vstd::wrapping::u64_specs::wrapping_mul(prng, MAPPING_MULTIPLIER)
}

impl RandomMapping {
    /// A mapping that starts at index 0 with generator state `seed`.
    pub open spec fn seeded(seed: u64) -> RandomMapping {
        RandomMapping { prng: seed, last_idx: 0 }
    }

    /// The state after one step under the spacing rule `G`: the generator
    /// advances and `last_idx` moves forward (wrapping) by the gap `G` gives.
    pub open spec fn step<G: IndexGap>(self) -> RandomMapping {
        RandomMapping {
            prng: next_prng(self.prng),
            last_idx: vstd::wrapping::u64_specs::wrapping_add(
                self.last_idx,
                G::gap_spec(self.last_idx, next_prng(self.prng)),
            ),
        }
    }

    /// The state after `n` steps from `self`.
    pub open spec fn steps<G: IndexGap>(self, n: nat) -> RandomMapping
        decreases n,
    {
        if n == 0 {
            self
        } else {
            self.steps::<G>((n - 1) as nat).step::<G>()
        }
    }

    pub fn next_index<G: IndexGap>(&mut self) -> (r: u64)
        ensures
            *final(self) == old(self).step::<G>(),
            r == final(self).last_idx,
    {
        let r = self.prng.wrapping_mul(MAPPING_MULTIPLIER);
        self.prng = r;
        let gap = G::gap(self.last_idx, r);
        self.last_idx = self.last_idx.wrapping_add(gap);
        self.last_idx
    }
}

/// `cell` with the symbols at positions `idx` of `syms` folded in, in order.
pub open spec fn applied_all<T: Symbol + Copy>(
    cell: CodedSymbol<T>,
    syms: Seq<HashedSymbol<T>>,
    idx: Seq<int>,
    direction: Direction,
) -> CodedSymbol<T>
    decreases idx.len(),
{
    if idx.len() == 0 {
        cell
    } else {
        applied_all(cell, syms, idx.drop_last(), direction).applied(syms[idx.last()], direction)
    }
}

/// `cell` with `sym` folded in `k` times.
pub open spec fn applied_n<T: Symbol + Copy>(cell: CodedSymbol<T>, sym: HashedSymbol<T>, direction: Direction, k: nat) -> CodedSymbol<T>
    decreases k,
{
    if k == 0 {
        cell
    } else {
        applied_n(cell, sym, direction, (k - 1) as nat).applied(sym, direction)
    }
}

/// Whether every cell of `after` is the matching cell of `before` with
/// `sym` folded in as many times as `hits` says.
pub open spec fn folded_from<T: Symbol + Copy>(after: Seq<CodedSymbol<T>>, before: Seq<CodedSymbol<T>>, sym: HashedSymbol<T>, direction: Direction, hits: Seq<nat>) -> bool {
    &&& after.len() == before.len()
    &&& hits.len() == before.len()
    &&& forall|i: int| 0 <= i < before.len() ==> #[trigger] after[i] == applied_n(before[i], sym, direction, hits[i])
}

/// Positions of symbols whose mapping was at index `at`.
pub open spec fn all_due(idx: Seq<int>, maps: Seq<RandomMapping>, at: u64) -> bool {
    forall|k: int| 0 <= k < idx.len() ==> 0 <= #[trigger] idx[k] < maps.len() && maps[idx[k]].last_idx == at
}

/// Two mappings in the same state stay in the same state, step for step:
/// the index sequence is a function of the seed.
pub proof fn lemma_mapping_deterministic<G: IndexGap>(a: RandomMapping, b: RandomMapping, n: nat)
    requires
        a == b,
    ensures
        a.steps::<G>(n) == b.steps::<G>(n),
        a.steps::<G>(n).last_idx == b.steps::<G>(n).last_idx,
{
}

/// `p` lists, once each, exactly the positions whose mapping is at index `at`.
pub open spec fn due_exactly(p: Seq<int>, maps: Seq<RandomMapping>, at: u64) -> bool {
    &&& all_due(p, maps, at)
    &&& p.no_duplicates()
    &&& forall|i: int| 0 <= i < maps.len() ==> (p.contains(i) <==> #[trigger] maps[i].last_idx == at)
}

/// Every index of the sequence from `seed` up to step `j` lies below `size`.
pub open spec fn reached_below<G: IndexGap>(seed: u64, size: int, j: nat) -> bool {
    forall|t: nat| t <= j ==> #[trigger] RandomMapping::seeded(seed).steps::<G>(t).last_idx < size
}

/// The sequence from `seed` lands on cell `c` before leaving the first `size` cells.
pub open spec fn visits<G: IndexGap>(seed: u64, size: int, c: int) -> bool {
    exists|j: nat| reached_below::<G>(seed, size, j) && #[trigger] RandomMapping::seeded(seed).steps::<G>(j).last_idx == c
}

/// While inside the first `size` cells, the sequence from `seed` strictly increases.
pub open spec fn increasing_below<G: IndexGap>(seed: u64, size: int) -> bool {
    forall|j: nat|
        reached_below::<G>(seed, size, j) ==> #[trigger] RandomMapping::seeded(seed).steps::<G>(j + 1).last_idx
            > RandomMapping::seeded(seed).steps::<G>(j).last_idx
}

/// `cells` with `sym` folded once into each cell that the sequence from
/// `sym.hash` visits below the cell count.
pub open spec fn fold_cells<T: Symbol + Copy, G: IndexGap>(
    cells: Seq<CodedSymbol<T>>,
    sym: HashedSymbol<T>,
    direction: Direction,
) -> Seq<CodedSymbol<T>> {
    Seq::new(
        cells.len(),
        |c: int|
            if visits::<G>(sym.hash, cells.len() as int, c) {
                cells[c].applied(sym, direction)
            } else {
                cells[c]
            },
    )
}

/// A cell holding exactly one symbol, with a matching hash.
pub open spec fn holds_one<T: Symbol + Copy>(c: CodedSymbol<T>) -> bool {
    (c.count == 1 || c.count == -1) && c.hash == c.symbol.hash_spec()
}

/// The positions of `idx`, in order, whose cell in `cells` holds exactly one symbol.
pub open spec fn single_cells<T: Symbol + Copy>(cells: Seq<CodedSymbol<T>>, idx: Seq<int>) -> Seq<i64>
    decreases idx.len(),
{
    if idx.len() == 0 {
        seq![]
    } else {
        let p = single_cells(cells, idx.drop_last());
        if holds_one(cells[idx.last()]) {
            p.push(idx.last() as i64)
        } else {
            p
        }
    }
}

/// `single_cells` looks only at the cells that `idx` names.
proof fn lemma_single_cells_frame<T: Symbol + Copy>(a: Seq<CodedSymbol<T>>, b: Seq<CodedSymbol<T>>, idx: Seq<int>)
    requires
        forall|k: int| 0 <= k < idx.len() ==> a[#[trigger] idx[k]] == b[idx[k]],
    ensures
        single_cells(a, idx) == single_cells(b, idx),
    decreases idx.len(),
{
    if idx.len() > 0 {
        lemma_single_cells_frame(a, b, idx.drop_last());
        assert(a[idx[idx.len() - 1]] == b[idx[idx.len() - 1]]);
    }
}

/// `vis` lists, in order, the indices the sequence from `seed` visits below
/// `size`, up to its first index at or past `size`.
pub open spec fn visit_order<G: IndexGap>(vis: Seq<int>, seed: u64, size: int) -> bool {
    &&& RandomMapping::seeded(seed).steps::<G>(vis.len()).last_idx >= size
    &&& vis.len() > 0 ==> reached_below::<G>(seed, size, (vis.len() - 1) as nat)
    &&& forall|t: int|
        0 <= t < vis.len() ==> #[trigger] vis[t] == RandomMapping::seeded(seed).steps::<G>(t as nat).last_idx
}

/// The first state of the sequence from `seed` whose index is at or past `size`.
pub open spec fn first_at_or_past<G: IndexGap>(m: RandomMapping, seed: u64, size: int) -> bool {
    exists|j: nat|
        m == RandomMapping::seeded(seed).steps::<G>(j) && m.last_idx >= size && (j > 0 ==> reached_below::<G>(
            seed,
            size,
            (j - 1) as nat,
        ))
}

/// `cells` with `sym` folded once into each cell that the sequence from
/// `sym.hash` visits, and the other cells as they were.
pub open spec fn folded_once<T: Symbol + Copy, G: IndexGap>(
    after: Seq<CodedSymbol<T>>,
    before: Seq<CodedSymbol<T>>,
    sym: HashedSymbol<T>,
    direction: Direction,
) -> bool {
    &&& after.len() == before.len()
    &&& forall|c: int|
        0 <= c < before.len() ==> #[trigger] after[c] == if visits::<G>(sym.hash, before.len() as int, c) {
            before[c].applied(sym, direction)
        } else {
            before[c]
        }
}

/// Below `size`, an increasing sequence passes each earlier index before a later step.
pub proof fn lemma_increasing_chain<G: IndexGap>(seed: u64, size: int, t: nat, j: nat)
    requires
        increasing_below::<G>(seed, size),
        t < j,
        reached_below::<G>(seed, size, (j - 1) as nat),
    ensures
        RandomMapping::seeded(seed).steps::<G>(t).last_idx < RandomMapping::seeded(seed).steps::<G>(j).last_idx,
    decreases j - t,
{
    let jm = (j - 1) as nat;
    assert(RandomMapping::seeded(seed).steps::<G>(jm + 1).last_idx > RandomMapping::seeded(seed).steps::<G>(jm).last_idx);
    assert(jm + 1 == j);
    if t < jm {
        assert(reached_below::<G>(seed, size, (jm - 1) as nat)) by {
            assert forall|u: nat| u <= (jm - 1) as nat implies #[trigger] RandomMapping::seeded(seed).steps::<G>(u).last_idx < size by {
                assert(u <= jm);
            }
        }
        lemma_increasing_chain::<G>(seed, size, t, jm);
    }
}

/// Cell `c` has been hit once if one of the first `j` steps of the sequence
/// from `seed` landed on it, and not at all otherwise.
pub open spec fn hit_once<G: IndexGap>(hits: Seq<nat>, seed: u64, size: int, j: nat) -> bool {
    forall|c: int|
        0 <= c < size ==> #[trigger] hits[c] == if exists|t: nat|
            t < j && RandomMapping::seeded(seed).steps::<G>(t).last_idx == c {
            1nat
        } else {
            0nat
        }
}

/// One more step of an increasing sequence, still inside the first `size`
/// cells, hits a cell not hit before.
pub proof fn lemma_visit_step<G: IndexGap>(hits: Seq<nat>, seed: u64, size: int, j: nat)
    requires
        increasing_below::<G>(seed, size),
        j > 0 ==> reached_below::<G>(seed, size, (j - 1) as nat),
        0 <= RandomMapping::seeded(seed).steps::<G>(j).last_idx < size,
        hits.len() == size,
        hit_once::<G>(hits, seed, size, j),
    ensures
        reached_below::<G>(seed, size, j),
        hit_once::<G>(
            hits.update(
                RandomMapping::seeded(seed).steps::<G>(j).last_idx as int,
                hits[RandomMapping::seeded(seed).steps::<G>(j).last_idx as int] + 1,
            ),
            seed,
            size,
            j + 1,
        ),
{
    let idx = RandomMapping::seeded(seed).steps::<G>(j).last_idx as int;
    assert forall|u: nat| u <= j implies #[trigger] RandomMapping::seeded(seed).steps::<G>(u).last_idx < size by {
        if u < j {
            lemma_increasing_chain::<G>(seed, size, u, j);
        }
    }
    assert forall|c: int| 0 <= c < size implies #[trigger] hits.update(idx, hits[idx] + 1)[c] == if exists|t: nat|
        t < j + 1 && RandomMapping::seeded(seed).steps::<G>(t).last_idx == c {
        1nat
    } else {
        0nat
    } by {
        if c == idx {
            assert forall|t: nat| t < j implies RandomMapping::seeded(seed).steps::<G>(t).last_idx != c by {
                lemma_increasing_chain::<G>(seed, size, t, j);
            }
        } else {
            if exists|t: nat| t < j + 1 && RandomMapping::seeded(seed).steps::<G>(t).last_idx == c {
                let t = choose|t: nat| t < j + 1 && RandomMapping::seeded(seed).steps::<G>(t).last_idx == c;
                assert(t != j);
            }
        }
    }
}

/// Once the sequence has left the first `size` cells, a cell hit once per
/// visit holds the symbol folded in exactly where the sequence visits.
pub proof fn lemma_visit_end<T: Symbol + Copy, G: IndexGap>(
    after: Seq<CodedSymbol<T>>,
    before: Seq<CodedSymbol<T>>,
    sym: HashedSymbol<T>,
    direction: Direction,
    hits: Seq<nat>,
    j: nat,
)
    requires
        folded_from(after, before, sym, direction, hits),
        RandomMapping::seeded(sym.hash).steps::<G>(j).last_idx >= before.len(),
        j > 0 ==> reached_below::<G>(sym.hash, before.len() as int, (j - 1) as nat),
        hit_once::<G>(hits, sym.hash, before.len() as int, j),
    ensures
        folded_once::<T, G>(after, before, sym, direction),
{
    let seed = sym.hash;
    let size = before.len() as int;
    assert forall|c: int| 0 <= c < size implies #[trigger] after[c] == if visits::<G>(seed, size, c) {
        before[c].applied(sym, direction)
    } else {
        before[c]
    } by {
        if exists|t: nat| t < j && RandomMapping::seeded(seed).steps::<G>(t).last_idx == c {
            let t = choose|t: nat| t < j && RandomMapping::seeded(seed).steps::<G>(t).last_idx == c;
            assert(reached_below::<G>(seed, size, t)) by {
                assert forall|u: nat| u <= t implies #[trigger] RandomMapping::seeded(seed).steps::<G>(u).last_idx < size by {
                    assert(u <= (j - 1) as nat);
                }
            }
            assert(visits::<G>(seed, size, c));
            assert(hits[c] == 1);
            assert(applied_n(before[c], sym, direction, 1) == applied_n(before[c], sym, direction, 0).applied(sym, direction));
        } else {
            if visits::<G>(seed, size, c) {
                let t = choose|t: nat|
                    reached_below::<G>(seed, size, t) && #[trigger] RandomMapping::seeded(seed).steps::<G>(t).last_idx == c;
                if t >= j {
                    assert(RandomMapping::seeded(seed).steps::<G>(j).last_idx < size);
                }
            }
            assert(hits[c] == 0);
        }
    }
}

/// The cell with all fields zero.
pub open spec fn zero_cell<T: Symbol + Copy>() -> CodedSymbol<T> {
    CodedSymbol { symbol: T::zero_spec(), hash: 0, count: 0 }
}

/// Folding two symbols into a cell gives the same cell in either order.
pub proof fn lemma_apply_exchange<T: Symbol + Copy>(
    cell: CodedSymbol<T>,
    a: HashedSymbol<T>,
    b: HashedSymbol<T>,
    direction: Direction,
)
    ensures
        cell.applied(a, direction).applied(b, direction) == cell.applied(b, direction).applied(a, direction),
{
    T::lemma_xor_exchange(cell.symbol, a.symbol, b.symbol);
    let (h, x, y) = (cell.hash, a.hash, b.hash);
    assert((h ^ x) ^ y == (h ^ y) ^ x) by (bit_vector);
}

/// The coded symbol at an index does not depend on the order in which the
/// due symbols are folded in: exchanging two neighbours in the fold order
/// leaves it unchanged.
pub proof fn lemma_fold_order_irrelevant<T: Symbol + Copy>(
    cell: CodedSymbol<T>,
    syms: Seq<HashedSymbol<T>>,
    idx: Seq<int>,
    k: int,
    direction: Direction,
)
    requires
        0 <= k,
        k + 1 < idx.len(),
    ensures
        applied_all(cell, syms, idx, direction) == applied_all(
            cell,
            syms,
            idx.update(k, idx[k + 1]).update(k + 1, idx[k]),
            direction,
        ),
    decreases idx.len(),
{
    let idx2 = idx.update(k, idx[k + 1]).update(k + 1, idx[k]);
    if k + 2 == idx.len() {
        let base = idx.drop_last().drop_last();
        assert(idx2.drop_last().drop_last() =~= base);
        assert(idx.drop_last().last() == idx[k]);
        assert(idx2.drop_last().last() == idx[k + 1]);
        let b = applied_all(cell, syms, base, direction);
        assert(applied_all(cell, syms, idx.drop_last(), direction) == b.applied(syms[idx[k]], direction));
        assert(applied_all(cell, syms, idx2.drop_last(), direction) == b.applied(syms[idx[k + 1]], direction));
        lemma_apply_exchange(b, syms[idx[k]], syms[idx[k + 1]], direction);
    } else {
        lemma_fold_order_irrelevant(cell, syms, idx.drop_last(), k, direction);
        assert(idx2.drop_last() =~= idx.drop_last().update(k, idx[k + 1]).update(k + 1, idx[k]));
        assert(idx2.last() == idx.last());
    }
}

impl<T: Symbol + Copy> CodedSymbol<T> {
    /// The cell after folding in `sym` with the sign of `direction`.
    pub open spec fn applied(self, sym: HashedSymbol<T>, direction: Direction) -> CodedSymbol<T> {
        CodedSymbol {
            symbol: self.symbol.xor_spec(&sym.symbol),
            hash: self.hash ^ sym.hash,
            count: vstd::wrapping::i64_specs::wrapping_add(self.count, direction.sign()),
        }
    }

    /// A count that peeling can act on: one symbol on either side, or nothing.
    pub open spec fn peelable(self) -> bool {
        self.count == 1 || self.count == -1 || (self.count == 0 && self.hash == 0)
    }

    /// Count and hash both zero: nothing left in the cell.
    pub open spec fn is_empty_cell(self) -> bool {
        self.count == 0 && self.hash == 0
    }

    /// A cell is pure when it holds exactly one symbol, or nothing.
    pub open spec fn is_pure(self) -> bool {
        ((self.count == 1 || self.count == -1) && self.hash == self.symbol.hash_spec())
            || (self.count == 0 && self.hash == 0)
    }

    pub fn apply(&mut self, sym: &HashedSymbol<T>, direction: Direction)
        ensures
            *final(self) == old(self).applied(*sym, direction),
    {
        self.symbol = self.symbol.xor(&sym.symbol);
        self.hash = self.hash ^ sym.hash;
        self.count = self.count.wrapping_add(direction.to_i64());
    }
}

/// Folding a symbol in and then out again restores the cell.
pub proof fn lemma_apply_inverse<T: Symbol + Copy>(
    cell: CodedSymbol<T>,
    sym: HashedSymbol<T>,
    direction: Direction,
)
    ensures
        cell.applied(sym, direction).applied(
            sym,
            match direction {
                Direction::ADD => Direction::REMOVE,
                Direction::REMOVE => Direction::ADD,
            },
        ) == cell,
{
    T::lemma_xor_cancel(cell.symbol, sym.symbol);
    let h = cell.hash;
    let s = sym.hash;
    assert((h ^ s) ^ s == h) by (bit_vector);
}

#[derive(Clone)]
pub struct Encoder<T: Symbol + Copy> {
    pub symbols: Vec<HashedSymbol<T>>,
    pub mappings: Vec<RandomMapping>,
    pub queue: Vec<SymbolMapping>,
    pub next_idx: u64,
}

/// The position of the parent of heap slot `i`.
pub open spec fn parent(i: int) -> int {
    (i - 1) / 2
}

/// Every entry is no smaller than its parent, except possibly the entry at
/// slot `hole`.
pub open spec fn heap_ordered_except(q: Seq<SymbolMapping>, hole: int) -> bool {
    forall|i: int| 0 < i < q.len() && i != hole ==> q[parent(i)].coded_idx <= #[trigger] q[i].coded_idx
}

/// Every entry is no smaller than its parent, except possibly the children
/// of slot `hole`.
pub open spec fn heap_ordered_below(q: Seq<SymbolMapping>, hole: int) -> bool {
    forall|i: int| 0 < i < q.len() && parent(i) != hole ==> q[parent(i)].coded_idx <= #[trigger] q[i].coded_idx
}

/// Every entry is no smaller than its parent.
pub open spec fn heap_ordered(q: Seq<SymbolMapping>) -> bool {
    heap_ordered_except(q, -1)
}

/// The root of an ordered heap is its least entry.
proof fn lemma_heap_root_min(q: Seq<SymbolMapping>, k: int)
    requires
        heap_ordered(q),
        0 <= k < q.len(),
    ensures
        q[0].coded_idx <= q[k].coded_idx,
    decreases k,
{
    if k > 0 {
        lemma_heap_root_min(q, parent(k));
        assert(q[parent(k)].coded_idx <= q[k].coded_idx);
    }
}

/// A hole that has no child smaller than itself leaves the heap ordered.
proof fn lemma_settled(q: Seq<SymbolMapping>, k: int)
    requires
        0 <= k < q.len(),
        heap_ordered_below(q, k),
        2 * k + 1 < q.len() ==> q[k].coded_idx <= q[2 * k + 1].coded_idx,
        2 * k + 2 < q.len() ==> q[k].coded_idx <= q[2 * k + 2].coded_idx,
    ensures
        heap_ordered(q),
{
    assert forall|i: int| 0 < i < q.len() && i != -1 implies q[parent(i)].coded_idx <= #[trigger] q[i].coded_idx by {
        if parent(i) == k {
            assert(i == 2 * k + 1 || i == 2 * k + 2);
        }
    }
}

/// One step of sifting down: swapping slot `k` with its smaller child `c`
/// moves the possible disorder below `c`.
proof fn lemma_sift_down_step(q: Seq<SymbolMapping>, q2: Seq<SymbolMapping>, k: int, c: int)
    requires
        0 <= k < c < q.len(),
        c == 2 * k + 1 || c == 2 * k + 2,
        c == 2 * k + 1 ==> (2 * k + 2 >= q.len() || q[c].coded_idx <= q[2 * k + 2].coded_idx),
        c == 2 * k + 2 ==> q[c].coded_idx <= q[2 * k + 1].coded_idx,
        q[c].coded_idx < q[k].coded_idx,
        q2 == q.update(k, q[c]).update(c, q[k]),
        heap_ordered_below(q, k),
        k > 0 ==> forall|i: int|
            0 < i < q.len() && parent(i) == k ==> q[parent(k)].coded_idx <= #[trigger] q[i].coded_idx,
    ensures
        heap_ordered_below(q2, c),
        forall|i: int| 0 < i < q2.len() && parent(i) == c ==> q2[parent(c)].coded_idx <= #[trigger] q2[i].coded_idx,
{
    assert(parent(c) == k);
    assert forall|i: int| 0 < i < q2.len() && parent(i) != c implies q2[parent(i)].coded_idx
        <= #[trigger] q2[i].coded_idx by {
        if parent(i) == k {
            assert(i == 2 * k + 1 || i == 2 * k + 2);
        } else if i == k {
            assert(q[parent(k)].coded_idx <= q[c].coded_idx);
        } else if i == c {
        } else {
            assert(q[parent(i)].coded_idx <= q[i].coded_idx);
        }
    }
    assert forall|i: int| 0 < i < q2.len() && parent(i) == c implies q2[parent(c)].coded_idx
        <= #[trigger] q2[i].coded_idx by {
        assert(q[c].coded_idx <= q[i].coded_idx);
    }
}

/// Each entry names a distinct symbol below `bound` and carries that
/// symbol's current mapping index.
#[verifier::opaque]
pub open spec fn entries_valid(q: Seq<SymbolMapping>, maps: Seq<RandomMapping>, bound: int) -> bool {
    &&& bound <= maps.len()
    &&& forall|i: int|
        0 <= i < q.len() ==> (#[trigger] q[i]).source_idx < bound && q[i].coded_idx
            == maps[q[i].source_idx as int].last_idx
    &&& forall|i: int, j: int|
        0 <= i < q.len() && 0 <= j < q.len() && i != j ==> #[trigger] q[i].source_idx
            != #[trigger] q[j].source_idx
    &&& forall|i: int| 0 <= i < bound ==> #[trigger] has_entry(q, i)
}

/// Some entry of `q` names symbol `i`.
pub open spec fn has_entry(q: Seq<SymbolMapping>, i: int) -> bool {
    exists|k: int| 0 <= k < q.len() && q[k].source_idx == i
}

/// A copy of `v`, element by element.
pub fn copy_vec<X: Copy>(v: &Vec<X>) -> (r: Vec<X>)
    ensures
        r@ == v@,
{
    let mut r: Vec<X> = Vec::new();
    let mut i: usize = 0;
    while i < v.len()
        invariant
            i <= v@.len(),
            r@ == v@.subrange(0, i as int),
        decreases v@.len() - i,
    {
        r.push(v[i]);
        i = i + 1;
        assert(r@ =~= v@.subrange(0, i as int));
    }
    assert(r@ =~= v@);
    r
}

impl<T: Symbol + Copy> Encoder<T> {
    /// The heap entries point at distinct symbols and record the current
    /// index of each symbol's mapping.
    pub open spec fn queue_mirrors(&self) -> bool {
        &&& self.mappings@.len() == self.symbols@.len()
        &&& self.queue@.len() == self.symbols@.len()
        &&& entries_valid(self.queue@, self.mappings@, self.symbols@.len() as int)
    }

    pub open spec fn wf(&self) -> bool {
        &&& self.queue_mirrors()
        &&& heap_ordered(self.queue@)
    }

    pub open spec fn is_empty_encoder(&self) -> bool {
        &&& self.symbols@.len() == 0
        &&& self.mappings@.len() == 0
        &&& self.queue@.len() == 0
        &&& self.next_idx == 0
    }

    pub fn new() -> (r: Self)
        ensures
            r.wf(),
            r.is_empty_encoder(),
    {
        reveal(entries_valid);
        Encoder {
            symbols: Vec::new(),
            mappings: Vec::new(),
            queue: Vec::new(),
            next_idx: 0,
        }
    }

    pub fn reset(&mut self)
        ensures
            final(self).wf(),
            final(self).is_empty_encoder(),
    {
        reveal(entries_valid);
        self.symbols.clear();
        self.mappings.clear();
        self.queue.clear();
        self.next_idx = 0;
    }

    /// A copy of the encoder, with the same symbols, mappings, heap and position.
    pub fn duplicate(&self) -> (r: Self)
        ensures
            r.symbols@ == self.symbols@,
            r.mappings@ == self.mappings@,
            r.queue@ == self.queue@,
            r.next_idx == self.next_idx,
    {
        Encoder {
            symbols: copy_vec(&self.symbols),
            mappings: copy_vec(&self.mappings),
            queue: copy_vec(&self.queue),
            next_idx: self.next_idx,
        }
    }

    fn swap_entries(&mut self, a: usize, b: usize, Ghost(bound): Ghost<int>)
        requires
            entries_valid(old(self).queue@, old(self).mappings@, bound),
            a < old(self).queue@.len(),
            b < old(self).queue@.len(),
        ensures
            entries_valid(final(self).queue@, final(self).mappings@, bound),
            final(self).queue@ == old(self).queue@.update(a as int, old(self).queue@[b as int]).update(
                b as int,
                old(self).queue@[a as int],
            ),
            final(self).symbols == old(self).symbols,
            final(self).mappings == old(self).mappings,
            final(self).next_idx == old(self).next_idx,
    {
        reveal(entries_valid);
        let ghost q = self.queue@;
        let ea = self.queue[a];
        let eb = self.queue[b];
        self.queue.set(a, eb);
        self.queue.set(b, ea);
        proof {
            let q2 = self.queue@;
            let (a, b) = (a as int, b as int);
            assert forall|i: int, j: int|
                0 <= i < q2.len() && 0 <= j < q2.len() && i != j
                implies #[trigger] q2[i].source_idx != #[trigger] q2[j].source_idx by {
                let oi = if i == b { a } else if i == a { b } else { i };
                let oj = if j == b { a } else if j == a { b } else { j };
                assert(q2[i] == q[oi]);
                assert(q2[j] == q[oj]);
            }
            assert forall|i: int| 0 <= i < q2.len() implies (#[trigger] q2[i]).source_idx < bound
                && q2[i].coded_idx == self.mappings@[q2[i].source_idx as int].last_idx by {
                let oi = if i == b { a } else if i == a { b } else { i };
                assert(q2[i] == q[oi]);
            }
            assert forall|i: int| 0 <= i < bound implies #[trigger] has_entry(q2, i) by {
                assert(has_entry(q, i));
                let k = choose|k: int| 0 <= k < q.len() && q[k].source_idx == i;
                let nk = if k == b { a } else if k == a { b } else { k };
                assert(q2[nk] == q[k]);
            }
        }
    }

    /// Restores heap order after an entry was appended at the end.
    fn sift_up(&mut self, Ghost(bound): Ghost<int>)
        requires
            entries_valid(old(self).queue@, old(self).mappings@, bound),
            old(self).queue@.len() > 0,
            heap_ordered_except(old(self).queue@, old(self).queue@.len() - 1),
        ensures
            entries_valid(final(self).queue@, final(self).mappings@, bound),
            heap_ordered(final(self).queue@),
            final(self).queue@.len() == old(self).queue@.len(),
            final(self).symbols == old(self).symbols,
            final(self).mappings == old(self).mappings,
            final(self).next_idx == old(self).next_idx,
    {
        let mut cur: usize = self.queue.len() - 1;
        while cur > 0 && self.queue[(cur - 1) / 2].coded_idx > self.queue[cur].coded_idx
            invariant
                entries_valid(self.queue@, self.mappings@, bound),
                self.queue@.len() == old(self).queue@.len(),
                self.symbols == old(self).symbols,
                self.mappings == old(self).mappings,
                self.next_idx == old(self).next_idx,
                cur < self.queue@.len(),
                heap_ordered_except(self.queue@, cur as int),
                cur > 0 ==> forall|i: int|
                    0 < i < self.queue@.len() && parent(i) == cur ==> self.queue@[parent(cur as int)].coded_idx
                        <= #[trigger] self.queue@[i].coded_idx,
            decreases cur,
        {
            let p = (cur - 1) / 2;
            let ghost q = self.queue@;
            self.swap_entries(p, cur, Ghost(bound));
            proof {
                let q2 = self.queue@;
                assert forall|i: int| 0 < i < q2.len() && i != p implies q2[parent(i)].coded_idx
                    <= #[trigger] q2[i].coded_idx by {
                    if parent(i) == cur {
                        assert(q[i] == q2[i]);
                    } else if i == cur {
                    } else if parent(i) == p {
                        assert(q[parent(i)].coded_idx <= q[i].coded_idx);
                    } else {
                        if parent(i) != cur && i != cur {
                            assert(q[parent(i)].coded_idx <= q[i].coded_idx);
                        }
                    }
                }
                if p > 0 {
                    assert forall|i: int| 0 < i < q2.len() && parent(i) == p implies q2[parent(p as int)].coded_idx
                        <= #[trigger] q2[i].coded_idx by {
                        assert(q[parent(p as int)].coded_idx <= q[p as int].coded_idx);
                        if i != cur {
                            assert(q[p as int].coded_idx <= q[i].coded_idx);
                        }
                    }
                }
            }
            cur = p;
        }
        proof {
            assert forall|i: int| 0 < i < self.queue@.len() && i != -1 implies self.queue@[parent(i)].coded_idx
                <= #[trigger] self.queue@[i].coded_idx by {
                if i == cur {
                    assert(self.queue@[parent(cur as int)].coded_idx <= self.queue@[cur as int].coded_idx);
                }
            }
        }
    }

    /// Appends `sym` with a mapping that may already have been advanced; its
    /// heap entry is scheduled at the mapping's current index.
    pub fn add_hashed_symbol_with_mapping(&mut self, sym: &HashedSymbol<T>, mapp: &RandomMapping)
        requires
            old(self).wf(),
            old(self).symbols@.len() < u64::MAX,
        ensures
            final(self).wf(),
            final(self).symbols@ == old(self).symbols@.push(*sym),
            final(self).mappings@ == old(self).mappings@.push(*mapp),
            final(self).next_idx == old(self).next_idx,
    {
        reveal(entries_valid);
        let ghost n = self.symbols@.len();
        self.symbols.push(*sym);
        self.mappings.push(*mapp);
        self.queue.push(SymbolMapping { source_idx: (self.symbols.len() as u64) - 1, coded_idx: mapp.last_idx });
        assert(self.queue_mirrors()) by {
            assert forall|i: int, j: int|
                0 <= i < self.queue@.len() && 0 <= j < self.queue@.len() && i != j
                implies #[trigger] self.queue@[i].source_idx != #[trigger] self.queue@[j].source_idx by {
                if i < n && j < n {
                    assert(old(self).queue@[i] == self.queue@[i]);
                    assert(old(self).queue@[j] == self.queue@[j]);
                } else if i < n {
                    assert(old(self).queue@[i] == self.queue@[i]);
                } else if j < n {
                    assert(old(self).queue@[j] == self.queue@[j]);
                }
            }
            assert forall|i: int| 0 <= i < self.queue@.len() implies (#[trigger] self.queue@[i]).source_idx
                < self.symbols@.len() && self.queue@[i].coded_idx
                == self.mappings@[self.queue@[i].source_idx as int].last_idx by {
                if i < n {
                    assert(old(self).queue@[i] == self.queue@[i]);
                }
            }
            assert forall|i: int| 0 <= i < self.symbols@.len() implies #[trigger] has_entry(self.queue@, i) by {
                if i < n {
                    assert(has_entry(old(self).queue@, i));
                    let k = choose|k: int| 0 <= k < old(self).queue@.len() && old(self).queue@[k].source_idx == i;
                    assert(self.queue@[k] == old(self).queue@[k]);
                } else {
                    assert(self.queue@[n as int].source_idx == i);
                }
            }
        }
        assert(heap_ordered_except(self.queue@, n as int)) by {
            assert forall|i: int| 0 < i < self.queue@.len() && i != n implies self.queue@[parent(i)].coded_idx
                <= #[trigger] self.queue@[i].coded_idx by {
                assert(old(self).queue@[i] == self.queue@[i]);
                assert(old(self).queue@[parent(i)] == self.queue@[parent(i)]);
            }
        }
        self.sift_up(Ghost(self.symbols@.len() as int));
    }

    /// Whether slot `k` may be out of order only with respect to its
    /// children, and its children are no smaller than its parent.
    pub open spec fn sifting_at(&self, k: int) -> bool {
        &&& heap_ordered_below(self.queue@, k)
        &&& k > 0 ==> forall|i: int|
            0 < i < self.queue@.len() && parent(i) == k ==> self.queue@[parent(k)].coded_idx
                <= #[trigger] self.queue@[i].coded_idx
    }

    /// One step of sifting down from `cur`: either the heap is in order, or
    /// the entry moved one level down to the returned slot.
    #[verifier::rlimit(50)]
    fn sift_down_step(&mut self, cur: usize) -> (r: (usize, bool))
        requires
            old(self).queue_mirrors(),
            cur < old(self).queue@.len(),
            old(self).sifting_at(cur as int),
        ensures
            final(self).queue_mirrors(),
            final(self).queue@.len() == old(self).queue@.len(),
            final(self).symbols == old(self).symbols,
            final(self).mappings == old(self).mappings,
            final(self).next_idx == old(self).next_idx,
            r.1 ==> r.0 == cur && heap_ordered(final(self).queue@),
            !r.1 ==> cur < r.0 < final(self).queue@.len() && final(self).sifting_at(r.0 as int),
    {
        let len = self.queue.len();
        if cur >= len / 2 {
            proof {
                lemma_settled(self.queue@, cur as int);
            }
            return (cur, true);
        }
        let mut child = 2 * cur + 1;
        let right = child + 1;
        if right < len && self.queue[right].coded_idx < self.queue[child].coded_idx {
            child = right;
        }
        if self.queue[cur].coded_idx <= self.queue[child].coded_idx {
            proof {
                lemma_settled(self.queue@, cur as int);
            }
            return (cur, true);
        }
        let ghost q = self.queue@;
        self.swap_entries(cur, child, Ghost(self.symbols@.len() as int));
        proof {
            lemma_sift_down_step(q, self.queue@, cur as int, child as int);
        }
        (child, false)
    }

    /// Restores heap order when only the entry at `start` may be larger than
    /// its children.
    fn heapify_down(&mut self, start: usize)
        requires
            old(self).queue_mirrors(),
            start < old(self).queue@.len(),
            old(self).sifting_at(start as int),
        ensures
            final(self).wf(),
            final(self).queue@.len() == old(self).queue@.len(),
            final(self).symbols == old(self).symbols,
            final(self).mappings == old(self).mappings,
            final(self).next_idx == old(self).next_idx,
    {
        let len = self.queue.len();
        let mut cur: usize = start;
        let mut done = false;
        while !done
            invariant
                self.queue_mirrors(),
                self.queue@.len() == len,
                self.symbols == old(self).symbols,
                self.mappings == old(self).mappings,
                self.next_idx == old(self).next_idx,
                cur < len,
                !done ==> self.sifting_at(cur as int),
                done ==> heap_ordered(self.queue@),
            decreases len - cur + (if done { 0int } else { 1int }),
        {
            let (next, settled) = self.sift_down_step(cur);
            cur = next;
            done = settled;
        }
    }

    /// At the end of a clean window, the folded positions are exactly the due ones.
    proof fn lemma_window_complete<G: IndexGap>(&self, start: Self, popped: Seq<int>, rounds_left: u64)
        requires
            self.wf(),
            start.window_is_clean::<G>(),
            self.symbols@ == start.symbols@,
            self.mappings@.len() == start.mappings@.len(),
            self.next_idx == start.next_idx,
            self.queue@.len() > 0,
            rounds_left as int == u64::MAX - popped.len(),
            popped.no_duplicates(),
            all_due(popped, start.mappings@, start.next_idx),
            !(self.queue@[0].coded_idx == self.next_idx && rounds_left > 0),
            forall|k: int|
                0 <= k < popped.len() ==> self.mappings@[#[trigger] popped[k]] == start.mappings@[popped[k]].step::<G>(),
            forall|i: int|
                0 <= i < start.mappings@.len() && !popped.contains(i) ==> #[trigger] self.mappings@[i]
                    == start.mappings@[i],
        ensures
            forall|i: int|
                0 <= i < start.mappings@.len() ==> (popped.contains(i) <==> #[trigger] start.mappings@[i].last_idx
                    == start.next_idx),
            forall|i: int|
                0 <= i < start.mappings@.len() ==> #[trigger] self.mappings@[i] == if start.mappings@[i].last_idx
                    == start.next_idx {
                    start.mappings@[i].step::<G>()
                } else {
                    start.mappings@[i]
                },
    {
        reveal(entries_valid);
        let n = start.mappings@.len();
        popped.unique_seq_to_set();
        vstd::set_lib::lemma_int_range(0, n as int);
        assert(popped.to_set().subset_of(vstd::set_lib::set_int_range(0, n as int))) by {
            assert forall|x: int| popped.to_set().contains(x) implies vstd::set_lib::set_int_range(0, n as int).contains(x) by {
                let k = choose|k: int| 0 <= k < popped.len() && popped[k] == x;
                assert(0 <= popped[k] < start.mappings@.len());
            }
        }
        vstd::set_lib::lemma_len_subset(popped.to_set(), vstd::set_lib::set_int_range(0, n as int));
        assert(rounds_left > 0);
        let q = self.queue@;
        let j = q[0].source_idx as int;
        assert(q[0].coded_idx == self.mappings@[j].last_idx);
        if popped.contains(j) {
            let k = choose|k: int| 0 <= k < popped.len() && popped[k] == j;
            assert(self.mappings@[popped[k]] == start.mappings@[popped[k]].step::<G>());
            assert(start.mappings@[j].last_idx == start.next_idx);
        } else {
            assert(start.mappings@[j].last_idx >= start.next_idx);
        }
        assert(q[0].coded_idx > start.next_idx);
        assert forall|i: int|
            0 <= i < n implies (popped.contains(i) <==> #[trigger] start.mappings@[i].last_idx == start.next_idx) by {
            if popped.contains(i) {
                let k = choose|k: int| 0 <= k < popped.len() && popped[k] == i;
                assert(all_due(popped, start.mappings@, start.next_idx));
                assert(start.mappings@[popped[k]].last_idx == start.next_idx);
            } else if start.mappings@[i].last_idx == start.next_idx {
                assert(has_entry(q, i));
                let k = choose|k: int| 0 <= k < q.len() && q[k].source_idx == i;
                lemma_heap_root_min(q, k);
                assert(q[k].coded_idx == self.mappings@[i].last_idx);
            }
        }
        assert forall|i: int| 0 <= i < n implies #[trigger] self.mappings@[i] == if start.mappings@[i].last_idx
            == start.next_idx {
            start.mappings@[i].step::<G>()
        } else {
            start.mappings@[i]
        } by {
            if popped.contains(i) {
                let k = choose|k: int| 0 <= k < popped.len() && popped[k] == i;
                assert(self.mappings@[popped[k]] == start.mappings@[popped[k]].step::<G>());
            }
        }
    }

    /// No symbol's index lies behind the current position, and each symbol due
    /// now steps strictly past it under `G` (the index sequence increases).
    pub open spec fn window_is_clean<G: IndexGap>(&self) -> bool {
        &&& self.symbols@.len() < u64::MAX
        &&& forall|i: int|
            0 <= i < self.mappings@.len() ==> #[trigger] self.mappings@[i].last_idx >= self.next_idx && (
            self.mappings@[i].last_idx == self.next_idx ==> self.mappings@[i].step::<G>().last_idx
                > self.next_idx)
    }

    /// Folds into a copy of `sym` every symbol whose mapping is due at the
    /// current position, advances those mappings, and moves to the next position.
    pub fn apply_window<G: IndexGap>(&mut self, sym: &CodedSymbol<T>, direction: Direction) -> (r: CodedSymbol<T>)
        requires
            old(self).wf(),
            old(self).next_idx < u64::MAX,
        ensures
            final(self).wf(),
            final(self).symbols@ == old(self).symbols@,
            final(self).next_idx == old(self).next_idx + 1,
            (forall|i: int| 0 <= i < old(self).mappings@.len() ==> #[trigger] old(self).mappings@[i].last_idx
                != old(self).next_idx) ==> r == *sym && final(self).mappings@ == old(self).mappings@,
            exists|popped: Seq<int>|
                r == applied_all(*sym, old(self).symbols@, popped, direction) && all_due(
                    popped,
                    old(self).mappings@,
                    old(self).next_idx,
                ) && (forall|i: int|
                    0 <= i < old(self).mappings@.len() && !popped.contains(i) ==> #[trigger] final(self).mappings@[i]
                        == old(self).mappings@[i]),
            old(self).window_is_clean::<G>() ==> forall|i: int|
                0 <= i < final(self).mappings@.len() ==> #[trigger] final(self).mappings@[i].last_idx
                    >= final(self).next_idx,
            old(self).window_is_clean::<G>() ==> exists|popped: Seq<int>|
                r == applied_all(*sym, old(self).symbols@, popped, direction) && all_due(
                    popped,
                    old(self).mappings@,
                    old(self).next_idx,
                ) && popped.no_duplicates() && (
                forall|i: int|
                    0 <= i < old(self).mappings@.len() ==> (popped.contains(i) <==> #[trigger] old(
                        self,
                    ).mappings@[i].last_idx == old(self).next_idx)) && (forall|i: int|
                    0 <= i < old(self).mappings@.len() ==> #[trigger] final(self).mappings@[i] == if old(
                        self,
                    ).mappings@[i].last_idx == old(self).next_idx {
                        old(self).mappings@[i].step::<G>()
                    } else {
                        old(self).mappings@[i]
                    }),
    {
        reveal(entries_valid);
        let ghost clean = old(self).window_is_clean::<G>();
        let mut next_sym = *sym;
        let ghost mut popped: Seq<int> = Seq::empty();
        if self.queue.len() == 0 {
            self.next_idx = self.next_idx + 1;
            assert(next_sym == applied_all(*sym, old(self).symbols@, popped, direction));
            assert(all_due(popped, old(self).mappings@, old(self).next_idx));
            assert(popped.no_duplicates());
            return next_sym;
        }
        let ghost none_due = forall|i: int| 0 <= i < old(self).mappings@.len() ==> #[trigger] old(self).mappings@[i].last_idx
            != old(self).next_idx;
        // Each round folds in one due contribution; the bound is never reached in practice.
        let mut rounds_left: u64 = u64::MAX;
        while self.queue[0].coded_idx == self.next_idx && rounds_left > 0
            invariant
                self.wf(),
                self.queue@.len() == old(self).queue@.len(),
                self.queue@.len() > 0,
                self.symbols@ == old(self).symbols@,
                self.next_idx == old(self).next_idx,
                none_due ==> next_sym == *sym && self.mappings@ == old(self).mappings@,
                none_due == (forall|i: int| 0 <= i < old(self).mappings@.len() ==> #[trigger] old(self).mappings@[i].last_idx
                    != old(self).next_idx),
                self.mappings@.len() == old(self).mappings@.len(),
                next_sym == applied_all(*sym, old(self).symbols@, popped, direction),
                forall|k: int|
                    0 <= k < popped.len() ==> 0 <= #[trigger] popped[k] < old(self).symbols@.len()
                        && old(self).mappings@[popped[k]].last_idx == old(self).next_idx,
                forall|i: int|
                    0 <= i < old(self).mappings@.len() && !popped.contains(i) ==> #[trigger] self.mappings@[i]
                        == old(self).mappings@[i],
                clean == old(self).window_is_clean::<G>(),
                rounds_left as int == u64::MAX - popped.len(),
                clean ==> popped.no_duplicates(),
                clean ==> forall|k: int|
                    0 <= k < popped.len() ==> self.mappings@[#[trigger] popped[k]] == old(
                        self,
                    ).mappings@[popped[k]].step::<G>(),
            decreases rounds_left,
        {
            rounds_left = rounds_left - 1;
            let root = self.queue[0];
            let n = self.symbols.len();
            proof {
                reveal(entries_valid);
                assert(self.queue@[0].source_idx < self.symbols@.len());
            }
            let src = root.source_idx as usize;
            proof {
                if none_due {
                    assert(self.mappings@[src as int].last_idx != self.next_idx);
                }
            }
            proof {
                if clean && popped.contains(src as int) {
                    let k = choose|k: int| 0 <= k < popped.len() && popped[k] == src as int;
                    assert(self.mappings@[popped[k]] == old(self).mappings@[popped[k]].step::<G>());
                    assert(old(self).mappings@[popped[k]].last_idx == old(self).next_idx);
                    assert(false);
                }
                if !popped.contains(src as int) {
                    assert(self.mappings@[src as int] == old(self).mappings@[src as int]);
                } else {
                    let k = choose|k: int| 0 <= k < popped.len() && popped[k] == src as int;
                    assert(old(self).mappings@[popped[k]].last_idx == old(self).next_idx);
                }
            }
            next_sym.apply(&self.symbols[src], direction);
            proof {
                let p2 = popped.push(src as int);
                assert(p2.drop_last() =~= popped);
                assert forall|i: int|
                    0 <= i < old(self).mappings@.len() && !p2.contains(i) implies !popped.contains(i) by {
                    if popped.contains(i) {
                        let k = choose|k: int| 0 <= k < popped.len() && popped[k] == i;
                        assert(p2[k] == i);
                    }
                }
                assert forall|k: int| 0 <= k < p2.len() implies 0 <= #[trigger] p2[k] < old(self).symbols@.len()
                    && old(self).mappings@[p2[k]].last_idx == old(self).next_idx by {
                    if k < popped.len() {
                        assert(p2[k] == popped[k]);
                    }
                }
                if clean {
                    assert(p2.no_duplicates()) by {
                        assert forall|a: int, b: int| 0 <= a < b < p2.len() implies p2[a] != p2[b] by {
                            if b == popped.len() {
                                assert(popped.contains(p2[a]));
                            }
                        }
                    }
                }
                popped = p2;
            }
            let mut mapp = self.mappings[src];
            let idx = mapp.next_index::<G>();
            let ghost q = self.queue@;
            let ghost old_maps = self.mappings@;
            self.mappings.set(src, mapp);
            self.queue.set(0, SymbolMapping { source_idx: root.source_idx, coded_idx: idx });
            proof {
                let q2 = self.queue@;
                assert forall|i: int, j: int|
                    0 <= i < q2.len() && 0 <= j < q2.len() && i != j
                    implies #[trigger] q2[i].source_idx != #[trigger] q2[j].source_idx by {
                    assert(q2[i].source_idx == q[i].source_idx);
                    assert(q2[j].source_idx == q[j].source_idx);
                }
                assert forall|i: int| 0 <= i < q2.len() implies (#[trigger] q2[i]).source_idx
                    < self.symbols@.len() && q2[i].coded_idx
                    == self.mappings@[q2[i].source_idx as int].last_idx by {
                    if i != 0 {
                        assert(q2[i] == q[i]);
                        assert(q[i].source_idx != q[0].source_idx);
                        assert(self.mappings@[q[i].source_idx as int] == old_maps[q[i].source_idx as int]);
                    } else {
                        assert(q2[0].source_idx == src);
                        assert(self.mappings@[src as int] == mapp);
                    }
                }
                assert forall|i: int| 0 < i < q2.len() && parent(i) != 0 implies q2[parent(i)].coded_idx
                    <= #[trigger] q2[i].coded_idx by {
                    assert(q[parent(i)].coded_idx <= q[i].coded_idx);
                }
                assert forall|i: int| 0 <= i < self.symbols@.len() implies #[trigger] has_entry(q2, i) by {
                    assert(has_entry(q, i));
                    let k = choose|k: int| 0 <= k < q.len() && q[k].source_idx == i;
                    assert(q2[k].source_idx == q[k].source_idx);
                }
            }
            proof {
                assert forall|i: int|
                    0 <= i < old(self).mappings@.len() && !popped.contains(i) implies #[trigger] self.mappings@[i]
                        == old(self).mappings@[i] by {
                    if i == src as int {
                        assert(popped[popped.len() - 1] == i);
                    }
                }
            }
            proof {
                if clean {
                    assert forall|k: int| 0 <= k < popped.len() implies self.mappings@[#[trigger] popped[k]]
                        == old(self).mappings@[popped[k]].step::<G>() by {
                        if k == popped.len() - 1 {
                            assert(self.mappings@[src as int] == mapp);
                        } else {
                            assert(popped[k] != src as int);
                        }
                    }
                }
            }
            self.heapify_down(0);
        }
        proof {
            if clean {
                self.lemma_window_complete::<G>(*old(self), popped, rounds_left);
                assert forall|i: int| 0 <= i < self.mappings@.len() implies #[trigger] self.mappings@[i].last_idx
                    > old(self).next_idx by {
                    assert(old(self).mappings@[i].last_idx >= old(self).next_idx);
                }
            }
        }
        self.next_idx = self.next_idx + 1;
        assert(all_due(popped, old(self).mappings@, old(self).next_idx));
        next_sym
    }

    /// The coded symbol at the current position, after which the position advances.
    pub fn produce_next_coded_symbol<G: IndexGap>(&mut self) -> (r: CodedSymbol<T>)
        requires
            old(self).wf(),
            old(self).next_idx < u64::MAX,
        ensures
            final(self).wf(),
            final(self).symbols@ == old(self).symbols@,
            final(self).next_idx == old(self).next_idx + 1,
            (forall|i: int| 0 <= i < old(self).mappings@.len() ==> #[trigger] old(self).mappings@[i].last_idx
                != old(self).next_idx) ==> r == zero_cell::<T>() && final(self).mappings@ == old(self).mappings@,
            exists|popped: Seq<int>|
                r == applied_all(zero_cell::<T>(), old(self).symbols@, popped, Direction::ADD) && all_due(
                    popped,
                    old(self).mappings@,
                    old(self).next_idx,
                ) && (forall|i: int|
                    0 <= i < old(self).mappings@.len() && !popped.contains(i) ==> #[trigger] final(self).mappings@[i]
                        == old(self).mappings@[i]),
            old(self).window_is_clean::<G>() ==> exists|popped: Seq<int>|
                r == applied_all(zero_cell::<T>(), old(self).symbols@, popped, Direction::ADD) && due_exactly(
                    popped,
                    old(self).mappings@,
                    old(self).next_idx,
                ) && (forall|i: int|
                    0 <= i < old(self).mappings@.len() ==> #[trigger] final(self).mappings@[i] == if old(
                        self,
                    ).mappings@[i].last_idx == old(self).next_idx {
                        old(self).mappings@[i].step::<G>()
                    } else {
                        old(self).mappings@[i]
                    }),
    {
        let zero = CodedSymbol { symbol: T::zero(), hash: 0, count: 0 };
        assert(zero == zero_cell::<T>());
        let r = self.apply_window::<G>(&zero, Direction::ADD);
        proof {
            if old(self).window_is_clean::<G>() {
                let p = choose|p: Seq<int>|
                    r == applied_all(zero, old(self).symbols@, p, Direction::ADD) && all_due(
                        p,
                        old(self).mappings@,
                        old(self).next_idx,
                    ) && p.no_duplicates() && (
                    forall|i: int|
                        0 <= i < old(self).mappings@.len() ==> (p.contains(i) <==> #[trigger] old(
                            self,
                        ).mappings@[i].last_idx == old(self).next_idx)) && (forall|i: int|
                        0 <= i < old(self).mappings@.len() ==> #[trigger] self.mappings@[i] == if old(
                            self,
                        ).mappings@[i].last_idx == old(self).next_idx {
                            old(self).mappings@[i].step::<G>()
                        } else {
                            old(self).mappings@[i]
                        });
                assert(due_exactly(p, old(self).mappings@, old(self).next_idx));
            }
        }
        r
    }

    /// Appends `sym` with a fresh mapping seeded by its hash.
    pub fn add_hashed_symbol(&mut self, sym: &HashedSymbol<T>)
        requires
            old(self).wf(),
            old(self).symbols@.len() < u64::MAX,
        ensures
            final(self).wf(),
            final(self).symbols@ == old(self).symbols@.push(*sym),
            final(self).mappings@ == old(self).mappings@.push(RandomMapping::seeded(sym.hash)),
            final(self).next_idx == old(self).next_idx,
    {
        self.add_hashed_symbol_with_mapping(sym, &RandomMapping { prng: sym.hash, last_idx: 0 });
    }

    /// Appends `sym` paired with its hash.
    pub fn add_symbol(&mut self, sym: &T)
        requires
            old(self).wf(),
            old(self).symbols@.len() < u64::MAX,
        ensures
            final(self).wf(),
            final(self).symbols@ == old(self).symbols@.push(HashedSymbol { symbol: *sym, hash: sym.hash_spec() }),
            final(self).mappings@ == old(self).mappings@.push(RandomMapping::seeded(sym.hash_spec())),
            final(self).next_idx == old(self).next_idx,
    {
        let h = sym.hash();
        self.add_hashed_symbol(&HashedSymbol { symbol: *sym, hash: h });
    }
}


/// A reset encoder and a new one hold the same state.
pub proof fn lemma_reset_is_fresh<T: Symbol + Copy>(reset: Encoder<T>, fresh: Encoder<T>)
    requires
        reset.is_empty_encoder(),
        fresh.is_empty_encoder(),
    ensures
        reset.symbols@ == fresh.symbols@,
        reset.mappings@ == fresh.mappings@,
        reset.queue@ == fresh.queue@,
        reset.next_idx == fresh.next_idx,
{
    assert(reset.symbols@ =~= fresh.symbols@);
    assert(reset.mappings@ =~= fresh.mappings@);
    assert(reset.queue@ =~= fresh.queue@);
}

/// Whether stored symbol `h` is `sym`: equal hashes and equal values.
pub open spec fn is_match<T: Symbol + Copy + PartialEq>(h: HashedSymbol<T>, sym: T) -> bool {
    h.hash == sym.hash_spec() && h.symbol.eq_spec(&sym)
}

impl<T: Symbol + Copy> Encoder<T> {
    /// Rebuilds the heap from the mappings: one entry per symbol, at the
    /// symbol's current index.
    fn rebuild_queue(&mut self)
        requires
            old(self).mappings@.len() == old(self).symbols@.len(),
        ensures
            final(self).wf(),
            final(self).symbols == old(self).symbols,
            final(self).mappings == old(self).mappings,
            final(self).next_idx == old(self).next_idx,
    {
        self.queue.clear();
        let n = self.symbols.len();
        let mut k: usize = 0;
        proof {
            reveal(entries_valid);
        }
        while k < n
            invariant
                n == self.symbols@.len(),
                n == self.mappings@.len(),
                k <= n,
                self.queue@.len() == k,
                entries_valid(self.queue@, self.mappings@, k as int),
                heap_ordered(self.queue@),
                self.symbols == old(self).symbols,
                self.mappings == old(self).mappings,
                self.next_idx == old(self).next_idx,
            decreases n - k,
        {
            let e = SymbolMapping { source_idx: k as u64, coded_idx: self.mappings[k].last_idx };
            let ghost q = self.queue@;
            self.queue.push(e);
            proof {
                reveal(entries_valid);
                let q2 = self.queue@;
                assert forall|i: int| 0 <= i < q2.len() implies (#[trigger] q2[i]).source_idx < k + 1
                    && q2[i].coded_idx == self.mappings@[q2[i].source_idx as int].last_idx by {
                    if i < k {
                        assert(q2[i] == q[i]);
                    }
                }
                assert forall|i: int, j: int|
                    0 <= i < q2.len() && 0 <= j < q2.len() && i != j
                    implies #[trigger] q2[i].source_idx != #[trigger] q2[j].source_idx by {
                    if i < k {
                        assert(q2[i] == q[i]);
                    }
                    if j < k {
                        assert(q2[j] == q[j]);
                    }
                }
                assert forall|i: int| 0 <= i < k + 1 implies #[trigger] has_entry(q2, i) by {
                    if i < k {
                        assert(has_entry(q, i));
                        let j = choose|j: int| 0 <= j < q.len() && q[j].source_idx == i;
                        assert(q2[j] == q[j]);
                    } else {
                        assert(q2[k as int].source_idx == i);
                    }
                }
                assert(entries_valid(q2, self.mappings@, k + 1));
                assert forall|i: int| 0 < i < q2.len() && i != k implies q2[parent(i)].coded_idx
                    <= #[trigger] q2[i].coded_idx by {
                    assert(q2[i] == q[i]);
                    assert(q2[parent(i)] == q[parent(i)]);
                }
            }
            self.sift_up(Ghost(k as int + 1));
            k = k + 1;
        }
    }
}

impl<T: Symbol + Copy + PartialEq> Encoder<T> {
    /// Removes the first stored symbol equal to `sym` (same hash, same value)
    /// together with its mapping, and reports whether there was one. Coded
    /// symbols already produced are not revisited; the remaining symbols keep
    /// their mappings.
    pub fn remove_symbol(&mut self, sym: &T) -> (r: bool)
        requires
            old(self).wf(),
        ensures
            final(self).wf(),
            final(self).next_idx == old(self).next_idx,
            !r ==> final(self).symbols@ == old(self).symbols@ && final(self).mappings@ == old(
                self,
            ).mappings@ && final(self).queue@ == old(self).queue@,
            T::obeys_eq_spec() ==> (r <==> exists|p: int|
                0 <= p < old(self).symbols@.len() && is_match(#[trigger] old(self).symbols@[p], *sym)),
            r ==> exists|p: int|
                0 <= p < old(self).symbols@.len() && old(self).symbols@[p].hash == sym.hash_spec() && (
                T::obeys_eq_spec() ==> is_match(old(self).symbols@[p], *sym) && forall|q: int|
                    0 <= q < p ==> !is_match(#[trigger] old(self).symbols@[q], *sym))
                    && final(self).symbols@ == old(self).symbols@.remove(p) && final(self).mappings@
                    == old(self).mappings@.remove(p),
    {
        let h = sym.hash();
        let n = self.symbols.len();
        let mut i: usize = 0;
        let mut found = false;
        while !found && i < n
            invariant
                n == self.symbols@.len(),
                h == sym.hash_spec(),
                i <= n,
                found ==> i < n && self.symbols@[i as int].hash == sym.hash_spec() && (T::obeys_eq_spec()
                    ==> is_match(self.symbols@[i as int], *sym)),
                T::obeys_eq_spec() ==> forall|q: int| 0 <= q < i ==> !is_match(#[trigger] self.symbols@[q], *sym),
            decreases n - i + (if found { 0int } else { 1int }),
        {
            let hs = self.symbols[i];
            if hs.hash == h && hs.symbol.eq(sym) {
                found = true;
            } else {
                i = i + 1;
            }
        }
        if !found {
            return false;
        }
        self.symbols.remove(i);
        self.mappings.remove(i);
        self.rebuild_queue();
        true
    }
}

pub struct Decoder<T: Symbol + Copy> {
    pub coded: Vec<CodedSymbol<T>>,
    pub local: Encoder<T>,
    pub remote: Encoder<T>,
    pub window: Encoder<T>,
    pub decodable: Vec<i64>,
    pub num_decoded: u64,
}

impl<T: Symbol + Copy> Encoder<T> {
    /// A decoder whose local set is this encoder's symbols, at this encoder's position.
    pub fn to_decoder(&self) -> (r: Decoder<T>)
        requires
            self.wf(),
        ensures
            r.wf(),
            r.coded@.len() == 0,
            r.decodable@.len() == 0,
            r.num_decoded == 0,
            r.local.is_empty_encoder(),
            r.remote.is_empty_encoder(),
            r.window.symbols@ == self.symbols@,
            r.window.mappings@ == self.mappings@,
            r.window.queue@ == self.queue@,
            r.window.next_idx == self.next_idx,
    {
        reveal(Decoder::wf);
        let mut decoder = Decoder::new();
        decoder.window = self.duplicate();
        decoder
    }
}

/// The symbol held by a cell that holds exactly one.
pub open spec fn recovered<T: Symbol + Copy>(c: CodedSymbol<T>) -> HashedSymbol<T> {
    HashedSymbol { symbol: T::zero_spec().xor_spec(&c.symbol), hash: c.hash }
}

impl<T: Symbol + Copy> Decoder<T> {
    /// The cell scheduled at position `k`.
    pub open spec fn scheduled(self, k: int) -> CodedSymbol<T> {
        self.coded@[self.decodable@[k] as int]
    }

    /// One peeling step, from `a` to `b`, on the cell scheduled at position `k`:
    /// a cell of count 1 adds its symbol to `remote` and folds it out of every
    /// received cell its sequence visits; count -1 does the same with `local`,
    /// folding in; an empty cell is only counted. Each step counts one cell
    /// as explained and may schedule more cells after the existing ones.
    #[verifier::opaque]
    pub open spec fn peel_step<G: IndexGap>(a: Self, b: Self, k: int) -> bool {
        let n = a.coded@.len();
        let c = a.scheduled(k);
        &&& b.coded@.len() == n
        &&& b.window == a.window
        &&& b.decodable@.len() >= a.decodable@.len()
        &&& b.decodable@.subrange(0, a.decodable@.len() as int) == a.decodable@
        &&& b.num_decoded == a.num_decoded + 1
        &&& if c.count == 1 {
            &&& b.remote.symbols@ == a.remote.symbols@.push(recovered(c))
            &&& b.local.symbols@ == a.local.symbols@
            &&& increasing_below::<G>(c.hash, n as int) ==> b.coded@ == fold_cells::<T, G>(
                a.coded@,
                recovered(c),
                Direction::REMOVE,
            ) && exists|vis: Seq<int>|
                visit_order::<G>(vis, c.hash, n as int) && b.decodable@ == a.decodable@ + single_cells(b.coded@, vis)
        } else if c.count == -1 {
            &&& b.local.symbols@ == a.local.symbols@.push(recovered(c))
            &&& b.remote.symbols@ == a.remote.symbols@
            &&& increasing_below::<G>(c.hash, n as int) ==> b.coded@ == fold_cells::<T, G>(
                a.coded@,
                recovered(c),
                Direction::ADD,
            ) && exists|vis: Seq<int>|
                visit_order::<G>(vis, c.hash, n as int) && b.decodable@ == a.decodable@ + single_cells(b.coded@, vis)
        } else {
            &&& b.coded@ == a.coded@
            &&& b.decodable@ == a.decodable@
            &&& b.remote.symbols@ == a.remote.symbols@
            &&& b.local.symbols@ == a.local.symbols@
        }
    }

    /// `trace` is a run of peeling steps over the scheduled positions 0, 1, ...
    /// in order, each on a cell that peeling can act on.
    #[verifier::opaque]
    pub open spec fn peel_run<G: IndexGap>(trace: Seq<Self>) -> bool {
        forall|i: int|
            #![trigger trace[i]]
            0 <= i < trace.len() - 1 ==> i < trace[i].decodable@.len() && trace[i].scheduled(i).peelable()
                && Self::peel_step::<G>(trace[i], trace[i + 1], i)
    }

    /// A run extended by one more peeling step is still a run.
    pub proof fn lemma_peel_run_push<G: IndexGap>(prev: Seq<Self>, next: Self, k: int)
        requires
            Self::peel_run::<G>(prev),
            prev.len() == k + 1,
            k < prev.last().decodable@.len(),
            prev.last().scheduled(k).peelable(),
            Self::peel_step::<G>(prev.last(), next, k),
        ensures
            Self::peel_run::<G>(prev.push(next)),
    {
        reveal(Decoder::peel_run);
        let t = prev.push(next);
        assert forall|i: int|
            #![trigger t[i]]
            0 <= i < t.len() - 1 implies i < t[i].decodable@.len() && t[i].scheduled(i).peelable()
                && Self::peel_step::<G>(t[i], t[i + 1], i) by {
            if i < k {
                assert(t[i] == prev[i]);
                assert(t[i + 1] == prev[i + 1]);
                assert(Self::peel_step::<G>(prev[i], prev[i + 1], i));
            } else {
                assert(t[i] == prev.last());
                assert(t[i + 1] == next);
            }
        }
    }
}

impl<T: Symbol + Copy> Decoder<T> {
    #[verifier::opaque]
    pub open spec fn wf(&self) -> bool {
        &&& self.window.wf()
        &&& self.remote.wf()
        &&& self.local.wf()
        &&& self.remote.next_idx == self.coded@.len()
        &&& self.local.next_idx == self.coded@.len()
        &&& self.coded@.len() <= i64::MAX
        &&& self.remote.symbols@.len() + self.local.symbols@.len() <= self.num_decoded
        &&& forall|k: int| 0 <= k < self.decodable@.len() ==> 0 <= #[trigger] self.decodable@[k] < self.coded@.len()
    }

    /// Nothing received, nothing known.
    pub open spec fn is_fresh(&self) -> bool {
        &&& self.coded@.len() == 0
        &&& self.decodable@.len() == 0
        &&& self.num_decoded == 0
        &&& self.local.is_empty_encoder()
        &&& self.remote.is_empty_encoder()
        &&& self.window.is_empty_encoder()
    }

    /// Room for one more coded symbol.
    pub open spec fn can_receive(&self) -> bool {
        &&& self.coded@.len() < i64::MAX
        &&& self.window.next_idx < u64::MAX
    }

    pub fn new() -> (r: Self)
        ensures
            r.wf(),
            r.is_fresh(),
    {
        reveal(Decoder::wf);
        Decoder {
            coded: Vec::new(),
            local: Encoder::new(),
            remote: Encoder::new(),
            window: Encoder::new(),
            decodable: Vec::new(),
            num_decoded: 0,
        }
    }

    pub fn reset(&mut self)
        ensures
            final(self).wf(),
            final(self).is_fresh(),
    {
        reveal(Decoder::wf);
        self.coded.clear();
        self.local.reset();
        self.remote.reset();
        self.window.reset();
        self.decodable.clear();
        self.num_decoded = 0;
    }

    /// Adds one of the local party's symbols; all of them come before any coded symbol.
    pub fn add_symbol(&mut self, sym: &T)
        requires
            old(self).wf(),
            old(self).window.symbols@.len() < u64::MAX,
        ensures
            final(self).wf(),
            final(self).window.symbols@ == old(self).window.symbols@.push(
                HashedSymbol { symbol: *sym, hash: sym.hash_spec() },
            ),
            final(self).window.next_idx == old(self).window.next_idx,
            final(self).coded == old(self).coded,
            final(self).decodable == old(self).decodable,
            final(self).num_decoded == old(self).num_decoded,
            final(self).local == old(self).local,
            final(self).remote == old(self).remote,
    {
        reveal(Decoder::wf);
        self.window.add_symbol(sym);
    }

    /// Takes the peer's next coded symbol, cancels every contribution already
    /// known, stores the residual, and schedules it for peeling when it is pure.
    pub fn add_coded_symbol<G: IndexGap>(&mut self, sym: &CodedSymbol<T>)
        requires
            old(self).wf(),
            old(self).can_receive(),
        ensures
            final(self).wf(),
            final(self).coded@.len() == old(self).coded@.len() + 1,
            final(self).coded@.subrange(0, old(self).coded@.len() as int) == old(self).coded@,
            final(self).window.next_idx == old(self).window.next_idx + 1,
            final(self).window.symbols@ == old(self).window.symbols@,
            final(self).remote.symbols@ == old(self).remote.symbols@,
            final(self).local.symbols@ == old(self).local.symbols@,
            final(self).num_decoded == old(self).num_decoded,
            exists|pw: Seq<int>, pr: Seq<int>, pl: Seq<int>|
                all_due(pw, old(self).window.mappings@, old(self).window.next_idx) && all_due(
                    pr,
                    old(self).remote.mappings@,
                    old(self).coded@.len() as u64,
                ) && all_due(pl, old(self).local.mappings@, old(self).coded@.len() as u64)
                    && #[trigger] final(self).coded@.last() == applied_all(
                    applied_all(
                        applied_all(*sym, old(self).window.symbols@, pw, Direction::REMOVE),
                        old(self).remote.symbols@,
                        pr,
                        Direction::REMOVE,
                    ),
                    old(self).local.symbols@,
                    pl,
                    Direction::ADD,
                ),
            old(self).window.window_is_clean::<G>() && old(self).remote.window_is_clean::<G>() && old(
                self,
            ).local.window_is_clean::<G>() ==> exists|pw: Seq<int>, pr: Seq<int>, pl: Seq<int>|
                due_exactly(pw, old(self).window.mappings@, old(self).window.next_idx) && due_exactly(
                    pr,
                    old(self).remote.mappings@,
                    old(self).coded@.len() as u64,
                ) && due_exactly(pl, old(self).local.mappings@, old(self).coded@.len() as u64)
                    && #[trigger] final(self).coded@.last() == applied_all(
                    applied_all(
                        applied_all(*sym, old(self).window.symbols@, pw, Direction::REMOVE),
                        old(self).remote.symbols@,
                        pr,
                        Direction::REMOVE,
                    ),
                    old(self).local.symbols@,
                    pl,
                    Direction::ADD,
                ),
            final(self).decodable@ == if final(self).coded@.last().is_pure() {
                old(self).decodable@.push(old(self).coded@.len() as i64)
            } else {
                old(self).decodable@
            },
    {
        reveal(Decoder::wf);
        let s1 = self.window.apply_window::<G>(sym, Direction::REMOVE);
        let s2 = self.remote.apply_window::<G>(&s1, Direction::REMOVE);
        let next_sym = self.local.apply_window::<G>(&s2, Direction::ADD);
        self.coded.push(next_sym);
        proof {
            let pw = choose|pw: Seq<int>|
                s1 == applied_all(*sym, old(self).window.symbols@, pw, Direction::REMOVE) && (forall|k: int|
                    0 <= k < pw.len() ==> 0 <= #[trigger] pw[k] < old(self).window.symbols@.len()
                        && old(self).window.mappings@[pw[k]].last_idx == old(self).window.next_idx) && (forall|i: int|
                    0 <= i < old(self).window.mappings@.len() && !pw.contains(i) ==> #[trigger] self.window.mappings@[i]
                        == old(self).window.mappings@[i]);
            let pr = choose|pr: Seq<int>|
                s2 == applied_all(s1, old(self).remote.symbols@, pr, Direction::REMOVE) && (forall|k: int|
                    0 <= k < pr.len() ==> 0 <= #[trigger] pr[k] < old(self).remote.symbols@.len()
                        && old(self).remote.mappings@[pr[k]].last_idx == old(self).remote.next_idx) && (forall|i: int|
                    0 <= i < old(self).remote.mappings@.len() && !pr.contains(i) ==> #[trigger] self.remote.mappings@[i]
                        == old(self).remote.mappings@[i]);
            let pl = choose|pl: Seq<int>|
                next_sym == applied_all(s2, old(self).local.symbols@, pl, Direction::ADD) && (forall|k: int|
                    0 <= k < pl.len() ==> 0 <= #[trigger] pl[k] < old(self).local.symbols@.len()
                        && old(self).local.mappings@[pl[k]].last_idx == old(self).local.next_idx) && (forall|i: int|
                    0 <= i < old(self).local.mappings@.len() && !pl.contains(i) ==> #[trigger] self.local.mappings@[i]
                        == old(self).local.mappings@[i]);
            assert(self.coded@.last() == next_sym);
            if old(self).window.window_is_clean::<G>() && old(self).remote.window_is_clean::<G>() && old(
                self,
            ).local.window_is_clean::<G>() {
                let qw = choose|qw: Seq<int>|
                    s1 == applied_all(*sym, old(self).window.symbols@, qw, Direction::REMOVE) && all_due(
                        qw,
                        old(self).window.mappings@,
                        old(self).window.next_idx,
                    ) && qw.no_duplicates() && (
                    forall|i: int|
                        0 <= i < old(self).window.mappings@.len() ==> (qw.contains(i) <==> #[trigger] old(
                            self,
                        ).window.mappings@[i].last_idx == old(self).window.next_idx)) && (forall|i: int|
                        0 <= i < old(self).window.mappings@.len() ==> #[trigger] self.window.mappings@[i] == if old(
                            self,
                        ).window.mappings@[i].last_idx == old(self).window.next_idx {
                            old(self).window.mappings@[i].step::<G>()
                        } else {
                            old(self).window.mappings@[i]
                        });
                let qr = choose|qr: Seq<int>|
                    s2 == applied_all(s1, old(self).remote.symbols@, qr, Direction::REMOVE) && all_due(
                        qr,
                        old(self).remote.mappings@,
                        old(self).remote.next_idx,
                    ) && qr.no_duplicates() && (
                    forall|i: int|
                        0 <= i < old(self).remote.mappings@.len() ==> (qr.contains(i) <==> #[trigger] old(
                            self,
                        ).remote.mappings@[i].last_idx == old(self).remote.next_idx)) && (forall|i: int|
                        0 <= i < old(self).remote.mappings@.len() ==> #[trigger] self.remote.mappings@[i] == if old(
                            self,
                        ).remote.mappings@[i].last_idx == old(self).remote.next_idx {
                            old(self).remote.mappings@[i].step::<G>()
                        } else {
                            old(self).remote.mappings@[i]
                        });
                let ql = choose|ql: Seq<int>|
                    next_sym == applied_all(s2, old(self).local.symbols@, ql, Direction::ADD) && all_due(
                        ql,
                        old(self).local.mappings@,
                        old(self).local.next_idx,
                    ) && ql.no_duplicates() && (
                    forall|i: int|
                        0 <= i < old(self).local.mappings@.len() ==> (ql.contains(i) <==> #[trigger] old(
                            self,
                        ).local.mappings@[i].last_idx == old(self).local.next_idx)) && (forall|i: int|
                        0 <= i < old(self).local.mappings@.len() ==> #[trigger] self.local.mappings@[i] == if old(
                            self,
                        ).local.mappings@[i].last_idx == old(self).local.next_idx {
                            old(self).local.mappings@[i].step::<G>()
                        } else {
                            old(self).local.mappings@[i]
                        });
                assert(due_exactly(qw, old(self).window.mappings@, old(self).window.next_idx));
                assert(due_exactly(qr, old(self).remote.mappings@, old(self).coded@.len() as u64));
                assert(due_exactly(ql, old(self).local.mappings@, old(self).coded@.len() as u64));
            }
            assert(all_due(pw, old(self).window.mappings@, old(self).window.next_idx));
            assert(all_due(pr, old(self).remote.mappings@, old(self).coded@.len() as u64));
            assert(all_due(pl, old(self).local.mappings@, old(self).coded@.len() as u64));
        }
        let h = next_sym.symbol.hash();
        if ((next_sym.count == 1 || next_sym.count == -1) && next_sym.hash == h) || (next_sym.count == 0
            && next_sym.hash == 0) {
            self.decodable.push((self.coded.len() as i64) - 1);
        }
        assert(self.coded@.subrange(0, old(self).coded@.len() as int) =~= old(self).coded@);
    }

    /// Folds `sym` into received cell `n` and schedules the cell when it now
    /// holds exactly one symbol.
    fn touch_cell(&mut self, n: usize, sym: &HashedSymbol<T>, direction: Direction)
        requires
            old(self).wf(),
            n < old(self).coded@.len(),
        ensures
            final(self).wf(),
            final(self).coded@ == old(self).coded@.update(n as int, old(self).coded@[n as int].applied(*sym, direction)),
            final(self).window == old(self).window,
            final(self).remote == old(self).remote,
            final(self).local == old(self).local,
            final(self).num_decoded == old(self).num_decoded,
            final(self).decodable@.len() >= old(self).decodable@.len(),
            final(self).decodable@.subrange(0, old(self).decodable@.len() as int) == old(self).decodable@,
            final(self).decodable@ == if holds_one(final(self).coded@[n as int]) {
                old(self).decodable@.push(n as i64)
            } else {
                old(self).decodable@
            },
    {
        reveal(Decoder::wf);
        let mut cell = self.coded[n];
        cell.apply(sym, direction);
        self.coded.set(n, cell);
        let h = cell.symbol.hash();
        if (cell.count == -1 || cell.count == 1) && cell.hash == h {
            self.decodable.push(n as i64);
        }
        assert(self.decodable@.subrange(0, old(self).decodable@.len() as int) =~= old(self).decodable@);
    }

    /// Removes (or, for `ADD`, restores) the contributions of a newly found
    /// symbol from every received cell it maps to, scheduling cells that become
    /// pure; returns the symbol's mapping advanced past the received cells.
    #[verifier::rlimit(50)]
    fn apply_new_symbol<G: IndexGap>(&mut self, sym: &HashedSymbol<T>, direction: Direction) -> (r: RandomMapping)
        requires
            old(self).wf(),
        ensures
            final(self).wf(),
            final(self).coded@.len() == old(self).coded@.len(),
            final(self).window == old(self).window,
            final(self).remote == old(self).remote,
            final(self).local == old(self).local,
            final(self).num_decoded == old(self).num_decoded,
            final(self).decodable@.len() >= old(self).decodable@.len(),
            final(self).decodable@.subrange(0, old(self).decodable@.len() as int) == old(self).decodable@,
            exists|hits: Seq<nat>| folded_from(final(self).coded@, old(self).coded@, *sym, direction, hits),
            increasing_below::<G>(sym.hash, old(self).coded@.len() as int) ==> folded_once::<T, G>(
                final(self).coded@,
                old(self).coded@,
                *sym,
                direction,
            ) && final(self).coded@ == fold_cells::<T, G>(old(self).coded@, *sym, direction)
                && first_at_or_past::<G>(r, sym.hash, old(self).coded@.len() as int) && exists|vis: Seq<int>|
                r == RandomMapping::seeded(sym.hash).steps::<G>(vis.len()) && visit_order::<G>(
                    vis,
                    sym.hash,
                    old(self).coded@.len() as int,
                ) && final(self).decodable@ == old(self).decodable@ + single_cells(
                    final(self).coded@,
                    vis,
                ),
    {
        let ghost seed = sym.hash;
        let ghost size = self.coded@.len() as int;
        let ghost inc = increasing_below::<G>(seed, size);
        let ghost mut j: nat = 0;
        let ghost mut vis: Seq<int> = seq![];
        let mut mapp = RandomMapping { prng: sym.hash, last_idx: 0 };
        assert(mapp == RandomMapping::seeded(seed).steps::<G>(0));
        assert(self.decodable@ =~= old(self).decodable@ + single_cells(self.coded@, vis));
        let ghost mut hits: Seq<nat> = Seq::new(self.coded@.len(), |i: int| 0nat);
        // Each round touches one cell; the bound is never reached in practice.
        let mut rounds_left: u64 = u64::MAX;
        while mapp.last_idx < (self.coded.len() as u64) && rounds_left > 0
            invariant
                self.wf(),
                self.coded@.len() == old(self).coded@.len(),
                self.window == old(self).window,
                self.remote == old(self).remote,
                self.local == old(self).local,
                self.num_decoded == old(self).num_decoded,
                self.decodable@.len() >= old(self).decodable@.len(),
                self.decodable@.subrange(0, old(self).decodable@.len() as int) == old(self).decodable@,
                folded_from(self.coded@, old(self).coded@, *sym, direction, hits),
                inc == increasing_below::<G>(seed, size),
                size == old(self).coded@.len(),
                seed == sym.hash,
                mapp == RandomMapping::seeded(seed).steps::<G>(j),
                rounds_left as int == u64::MAX - j,
                inc && j > 0 ==> reached_below::<G>(seed, size, (j - 1) as nat),
                inc ==> mapp.last_idx >= j,
                vis.len() == j,
                forall|t: int| 0 <= t < vis.len() ==> #[trigger] vis[t] == RandomMapping::seeded(seed).steps::<G>(t as nat).last_idx,
                inc ==> self.decodable@ == old(self).decodable@ + single_cells(self.coded@, vis),
                inc ==> hit_once::<G>(hits, seed, size, j),
            decreases rounds_left,
        {
            rounds_left = rounds_left - 1;
            let n = mapp.last_idx as usize;
            let ghost pre_coded = self.coded@;
            let ghost pre_dec = self.decodable@;
            self.touch_cell(n, sym, direction);
            proof {
                let v2 = vis.push(n as int);
                assert(v2.drop_last() =~= vis);
                if inc {
                    assert forall|k: int| 0 <= k < vis.len() implies self.coded@[#[trigger] vis[k]] == pre_coded[vis[k]] by {
                        lemma_increasing_chain::<G>(seed, size, k as nat, j);
                    }
                    lemma_single_cells_frame(self.coded@, pre_coded, vis);
                    assert(self.decodable@ =~= old(self).decodable@ + single_cells(self.coded@, v2));
                }
                vis = v2;
            }
            proof {
                if inc {
                    lemma_visit_step::<G>(hits, seed, size, j);
                }
                hits = hits.update(n as int, hits[n as int] + 1);
            }
            mapp.next_index::<G>();
            proof {
                if inc {
                    assert(RandomMapping::seeded(seed).steps::<G>(j + 1).last_idx > RandomMapping::seeded(seed).steps::<G>(j).last_idx);
                }
                j = j + 1;
            }
        }
        proof {
            if inc {
                assert(j <= mapp.last_idx);
                assert(mapp.last_idx >= size);
                lemma_visit_end::<T, G>(self.coded@, old(self).coded@, *sym, direction, hits, j);
                assert(self.coded@ =~= fold_cells::<T, G>(old(self).coded@, *sym, direction));
                assert(first_at_or_past::<G>(mapp, seed, size));
                assert(visit_order::<G>(vis, seed, size));
                assert(mapp == RandomMapping::seeded(seed).steps::<G>(vis.len()));
            }
        }
        mapp
    }

    /// Peels the cell scheduled at position `didx`, which holds one symbol or none.
    fn peel_cell<G: IndexGap>(&mut self, didx: usize, cidx: usize)
        requires
            old(self).wf(),
            didx < old(self).decodable@.len(),
            cidx as int == old(self).decodable@[didx as int],
            old(self).scheduled(didx as int).peelable(),
            old(self).num_decoded < u64::MAX,
        ensures
            final(self).wf(),
            Self::peel_step::<G>(*old(self), *final(self), didx as int),
            final(self).coded@.len() == old(self).coded@.len(),
            final(self).window == old(self).window,
            final(self).num_decoded == old(self).num_decoded + 1,
            final(self).decodable@.len() >= old(self).decodable@.len(),
            old(self).scheduled(didx as int).count == 0 ==> final(self).coded == old(self).coded
                && final(self).decodable == old(self).decodable && final(self).remote == old(self).remote
                && final(self).local == old(self).local,
            final(self).remote.symbols@.len() >= old(self).remote.symbols@.len(),
            final(self).remote.symbols@.subrange(0, old(self).remote.symbols@.len() as int)
                == old(self).remote.symbols@,
            final(self).local.symbols@.len() >= old(self).local.symbols@.len(),
            final(self).local.symbols@.subrange(0, old(self).local.symbols@.len() as int)
                == old(self).local.symbols@,
    {
        reveal(Decoder::wf);
        reveal(Decoder::peel_step);
        let sym = self.coded[cidx];
        assert(sym == old(self).scheduled(didx as int));
        let ghost n = self.coded@.len();
        if sym.count == 1 || sym.count == -1 {
            let z = T::zero();
            let new_sym = HashedSymbol { symbol: z.xor(&sym.symbol), hash: sym.hash };
            assert(new_sym == recovered(sym));
            if sym.count == 1 {
                let mapp = self.apply_new_symbol::<G>(&new_sym, Direction::REMOVE);
                proof {
                    reveal(Decoder::wf);
                }
                self.remote.add_hashed_symbol_with_mapping(&new_sym, &mapp);
                assert(self.remote.symbols@.subrange(0, old(self).remote.symbols@.len() as int)
                    =~= old(self).remote.symbols@);
                assert(self.remote.symbols@ == old(self).remote.symbols@.push(recovered(sym)));
                assert(self.window == old(self).window);
                assert(self.decodable@.subrange(0, old(self).decodable@.len() as int) == old(self).decodable@);
                assert(increasing_below::<G>(sym.hash, n as int) ==> self.coded@ == fold_cells::<T, G>(
                    old(self).coded@, recovered(sym), Direction::REMOVE));
            } else {
                let mapp = self.apply_new_symbol::<G>(&new_sym, Direction::ADD);
                proof {
                    reveal(Decoder::wf);
                }
                self.local.add_hashed_symbol_with_mapping(&new_sym, &mapp);
                assert(self.local.symbols@.subrange(0, old(self).local.symbols@.len() as int)
                    =~= old(self).local.symbols@);
            }
            self.num_decoded = self.num_decoded + 1;
            assert(self.num_decoded == old(self).num_decoded + 1);
            assert(Self::peel_step::<G>(*old(self), *self, didx as int));
        } else {
            self.num_decoded = self.num_decoded + 1;
            assert(self.remote.symbols@.subrange(0, old(self).remote.symbols@.len() as int)
                =~= old(self).remote.symbols@);
            assert(self.local.symbols@.subrange(0, old(self).local.symbols@.len() as int)
                =~= old(self).local.symbols@);
            assert(self.decodable@.subrange(0, old(self).decodable@.len() as int) =~= old(self).decodable@);
            assert(Self::peel_step::<G>(*old(self), *self, didx as int));
        }
    }

    /// Peels every scheduled cell: a cell of count 1 reveals a symbol only the
    /// peer has, one of count -1 a symbol only this side has, one of count 0 is
    /// fully explained; any other count is an error.
    #[verifier::rlimit(100)]
    pub fn try_decode<G: IndexGap>(&mut self) -> (r: Result<(), Error>)
        requires
            old(self).wf(),
        ensures
            final(self).wf(),
            final(self).coded@.len() == old(self).coded@.len(),
            final(self).window == old(self).window,
            final(self).remote.symbols@.len() >= old(self).remote.symbols@.len(),
            final(self).remote.symbols@.subrange(0, old(self).remote.symbols@.len() as int)
                == old(self).remote.symbols@,
            final(self).local.symbols@.len() >= old(self).local.symbols@.len(),
            final(self).local.symbols@.subrange(0, old(self).local.symbols@.len() as int)
                == old(self).local.symbols@,
            r is Ok ==> final(self).decodable@.len() == 0,
            r is Err ==> r == Err::<(), Error>(Error::InvalidDegree),
            old(self).decodable@.len() == 0 ==> r is Ok && final(self).coded == old(self).coded
                && final(self).remote == old(self).remote && final(self).local == old(self).local
                && final(self).num_decoded == old(self).num_decoded,
            old(self).decodable@.len() > 0 && old(self).num_decoded < u64::MAX && !old(
                self,
            ).coded@[old(self).decodable@[0] as int].peelable() ==> r == Err::<(), Error>(Error::InvalidDegree),
            exists|trace: Seq<Self>|
                trace.len() >= 1 && trace[0] == *old(self) && #[trigger] Self::peel_run::<G>(trace) && ({
                    let last = trace.last();
                    let m = trace.len() - 1;
                    &&& r is Err <==> (m < last.decodable@.len() && last.num_decoded < u64::MAX
                        && !last.scheduled(m).peelable())
                    &&& r is Err ==> *final(self) == last
                    &&& r is Ok ==> (m == last.decodable@.len() || last.num_decoded == u64::MAX)
                        && final(self).coded == last.coded && final(self).remote == last.remote
                        && final(self).local == last.local && final(self).window == last.window
                        && final(self).num_decoded == last.num_decoded
                }),
            old(self).num_decoded + old(self).decodable@.len() < u64::MAX && (forall|k: int|
                0 <= k < old(self).decodable@.len() ==> #[trigger] old(self).coded@[old(
                    self,
                ).decodable@[k] as int].is_empty_cell()) ==> r is Ok && final(self).coded
                == old(self).coded && final(self).remote == old(self).remote && final(self).local
                == old(self).local && final(self).num_decoded == old(self).num_decoded + old(
                self,
            ).decodable@.len(),
    {
        reveal(Decoder::wf);
        let ghost all_empty = old(self).num_decoded + old(self).decodable@.len() < u64::MAX && (forall|k: int|
            0 <= k < old(self).decodable@.len() ==> #[trigger] old(self).coded@[old(self).decodable@[k] as int].is_empty_cell());
        let mut didx: usize = 0;
        let ghost mut trace: Seq<Self> = seq![*self];
        assert(Self::peel_run::<G>(trace)) by {
            reveal(Decoder::peel_run);
        }
        while didx < self.decodable.len() && self.num_decoded < u64::MAX
            invariant
                trace.len() == didx + 1,
                didx <= self.decodable@.len(),
                trace[0] == *old(self),
                trace.last() == *self,
                Self::peel_run::<G>(trace),
                self.wf(),
                self.coded@.len() == old(self).coded@.len(),
                self.window == old(self).window,
                self.remote.symbols@.len() >= old(self).remote.symbols@.len(),
                self.remote.symbols@.subrange(0, old(self).remote.symbols@.len() as int)
                    == old(self).remote.symbols@,
                self.local.symbols@.len() >= old(self).local.symbols@.len(),
                self.local.symbols@.subrange(0, old(self).local.symbols@.len() as int)
                    == old(self).local.symbols@,
                old(self).decodable@.len() == 0 ==> self.decodable@.len() == 0,
                old(self).decodable@.len() == 0 ==> self.coded == old(self).coded && self.remote
                    == old(self).remote && self.local == old(self).local && self.num_decoded
                    == old(self).num_decoded,
                didx == 0 ==> self.coded == old(self).coded && self.decodable == old(self).decodable
                    && self.num_decoded == old(self).num_decoded,
                didx > 0 ==> old(self).coded@[old(self).decodable@[0] as int].peelable(),
                all_empty == (old(self).num_decoded + old(self).decodable@.len() < u64::MAX && (forall|k: int|
                    0 <= k < old(self).decodable@.len() ==> #[trigger] old(self).coded@[old(self).decodable@[k] as int].is_empty_cell())),
                all_empty ==> self.coded == old(self).coded && self.decodable == old(self).decodable
                    && self.remote == old(self).remote && self.local == old(self).local
                    && self.num_decoded == old(self).num_decoded + didx && didx <= old(self).decodable@.len(),
            decreases u64::MAX - self.num_decoded,
        {
            proof {
                reveal(Decoder::wf);
            }
            assert(0 <= self.decodable@[didx as int] < self.coded@.len());
            let d: i64 = self.decodable[didx];
            let clen = self.coded.len();
            assert(d == self.decodable@[didx as int]);
            assert(0 <= d < clen);
            let cidx = d as usize;
            let sym = self.coded[cidx];
            proof {
                assert(cidx as int == self.decodable@[didx as int]);
                assert(sym == self.coded@[cidx as int]);
                if didx == 0 {
                    assert(self.coded@ == old(self).coded@);
                    assert(self.decodable@ == old(self).decodable@);
                    assert(sym == old(self).coded@[old(self).decodable@[0] as int]);
                }
                if all_empty {
                    assert(self.coded@ == old(self).coded@);
                    assert(self.decodable@ == old(self).decodable@);
                    assert(old(self).coded@[old(self).decodable@[didx as int] as int].is_empty_cell());
                    assert(sym.count == 0 && sym.hash == 0);
                }
            }
            if (sym.count == 1 || sym.count == -1) || (sym.count == 0 && sym.hash == 0) {
                let ghost before = *self;
                let ghost prev = trace;
                assert(before.scheduled(didx as int) == sym);
                assert(sym.peelable());
                self.peel_cell::<G>(didx, cidx);
                proof {
                    Self::lemma_peel_run_push::<G>(prev, *self, didx as int);
                    trace = trace.push(*self);
                    assert(Self::peel_run::<G>(trace));
                    assert(trace.last() == *self);
                }
            } else {
                proof {
                    assert(!self.scheduled(didx as int).peelable());
                    assert(trace.last() == *self);
                    assert(trace.len() - 1 == didx);
                }
                return Err(Error::InvalidDegree);
            }
            assert(sym.peelable());
            didx = didx + 1;
        }
        proof {
            if all_empty {
                assert(didx == old(self).decodable@.len());
            }
        }
        let ghost last = *self;
        self.decodable.clear();
        proof {
            assert(trace.last() == last);
            assert(trace.len() - 1 == didx);
            assert(self.coded == last.coded && self.remote == last.remote && self.local == last.local);
            assert(self.window == last.window);
            assert(self.num_decoded == last.num_decoded);
            assert(didx == last.decodable@.len() || last.num_decoded == u64::MAX);
            assert(Self::peel_run::<G>(trace));
            assert(trace[0] == *old(self));
        }
        Ok(())
    }

    /// Every received coded symbol has been explained.
    pub fn decoded(&self) -> (r: bool)
        ensures
            r == (self.num_decoded == self.coded@.len()),
    {
        self.num_decoded == (self.coded.len() as u64)
    }

    /// The symbols found only on the peer's side, in order of discovery.
    pub fn get_remote_symbols(&self) -> (r: Vec<HashedSymbol<T>>)
        ensures
            r@ == self.remote.symbols@,
    {
        copy_vec(&self.remote.symbols)
    }

    /// The symbols found only on this side, in order of discovery.
    pub fn get_local_symbols(&self) -> (r: Vec<HashedSymbol<T>>)
        ensures
            r@ == self.local.symbols@,
    {
        copy_vec(&self.local.symbols)
    }
}

} // verus!
