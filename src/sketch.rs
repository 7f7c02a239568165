use vstd::prelude::*;

use crate::encoding::{
    all_due, applied_all, folded_once, increasing_below, lemma_apply_inverse, lemma_increasing_chain,
    reached_below, visits, hit_once, lemma_visit_step, lemma_visit_end, applied_n, due_exactly, folded_from, zero_cell, CodedSymbol, Decoder, Direction, Error, HashedSymbol, IndexGap,
    RandomMapping, Symbol,
};

verus! {

/// A fixed number of cells; each inserted symbol is folded into every cell
/// that its mapping visits below the cell count.
pub struct Sketch<T: Symbol + Copy> {
    pub v: Vec<CodedSymbol<T>>,
}

pub struct SketchDecodeResult<T: Symbol + Copy> {
    pub fwd: Vec<HashedSymbol<T>>,
    pub rev: Vec<HashedSymbol<T>>,
    pub is_decoded: bool,
}

/// Cell-wise difference of two cells: symbols and hashes combined, counts subtracted.
pub open spec fn cell_diff<T: Symbol + Copy>(a: CodedSymbol<T>, b: CodedSymbol<T>) -> CodedSymbol<T> {
    CodedSymbol {
        symbol: a.symbol.xor_spec(&b.symbol),
        hash: a.hash ^ b.hash,
        count: vstd::wrapping::i64_specs::wrapping_sub(a.count, b.count),
    }
}

/// Inserting a symbol and then removing it leaves every cell as it was.
pub proof fn lemma_add_then_remove<T: Symbol + Copy, G: IndexGap>(
    before: Seq<CodedSymbol<T>>,
    mid: Seq<CodedSymbol<T>>,
    after: Seq<CodedSymbol<T>>,
    sym: HashedSymbol<T>,
)
    requires
        folded_once::<T, G>(mid, before, sym, Direction::ADD),
        folded_once::<T, G>(after, mid, sym, Direction::REMOVE),
    ensures
        after == before,
{
    assert forall|c: int| 0 <= c < before.len() implies after[c] == before[c] by {
        if visits::<G>(sym.hash, before.len() as int, c) {
            lemma_apply_inverse(before[c], sym, Direction::ADD);
        }
    }
    assert(after =~= before);
}

/// Positions, in order, of the pure cells among the first `n` of `cells`.
pub open spec fn pure_indices<T: Symbol + Copy>(cells: Seq<CodedSymbol<T>>, n: nat) -> Seq<i64>
    decreases n,
{
    if n == 0 {
        seq![]
    } else {
        let p = pure_indices(cells, (n - 1) as nat);
        if cells[n - 1].is_pure() {
            p.push((n - 1) as i64)
        } else {
            p
        }
    }
}

/// `fed` is a fresh decoder that has received `cells` in order: with no
/// local symbols, every cell is stored as it came and the pure ones are
/// scheduled in order.
pub open spec fn fed_with<T: Symbol + Copy>(fed: Decoder<T>, cells: Seq<CodedSymbol<T>>) -> bool {
    &&& fed.coded@ == cells
    &&& fed.decodable@ == pure_indices(cells, cells.len())
    &&& fed.remote.symbols@.len() == 0
    &&& fed.local.symbols@.len() == 0
    &&& fed.num_decoded == 0
}

impl<T: Symbol + Copy> Sketch<T> {
    /// `size` zero cells.
    pub fn new(size: usize) -> (r: Sketch<T>)
        ensures
            r.v@.len() == size,
            forall|i: int| 0 <= i < size ==> #[trigger] r.v@[i] == zero_cell::<T>(),
    {
        let mut v: Vec<CodedSymbol<T>> = Vec::new();
        let mut i: usize = 0;
        while i < size
            invariant
                i <= size,
                v@.len() == i,
                forall|j: int| 0 <= j < i ==> #[trigger] v@[j] == zero_cell::<T>(),
            decreases size - i,
        {
            v.push(CodedSymbol { symbol: T::zero(), hash: 0, count: 0 });
            i = i + 1;
        }
        Sketch { v }
    }

    /// Folds `sym` with the sign of `direction` into every cell that its
    /// mapping visits while the index is below the cell count; the mapping
    /// starts at cell 0.
    fn fold_hashed_symbol<G: IndexGap>(&mut self, sym: &HashedSymbol<T>, direction: Direction)
        ensures
            exists|hits: Seq<nat>|
                folded_from(final(self).v@, old(self).v@, *sym, direction, hits) && (hits.len() > 0
                    ==> hits[0] > 0),
            increasing_below::<G>(sym.hash, old(self).v@.len() as int) ==> folded_once::<T, G>(
                final(self).v@,
                old(self).v@,
                *sym,
                direction,
            ),
    {
        let ghost seed = sym.hash;
        let ghost size = self.v@.len() as int;
        let ghost inc = increasing_below::<G>(seed, size);
        let ghost mut j: nat = 0;
        let mut mapp = RandomMapping { prng: sym.hash, last_idx: 0 };
        assert(mapp == RandomMapping::seeded(seed).steps::<G>(0));
        let ghost mut hits: Seq<nat> = Seq::new(self.v@.len(), |i: int| 0nat);
        // Each round touches one cell; the bound is never reached in practice.
        let mut rounds_left: u64 = u64::MAX;
        let mut first = true;
        while mapp.last_idx < (self.v.len() as u64) && rounds_left > 0
            invariant
                folded_from(self.v@, old(self).v@, *sym, direction, hits),
                first ==> mapp.last_idx == 0,
                !first && hits.len() > 0 ==> hits[0] > 0,
                first ==> self.v@.len() == 0 || rounds_left > 0,
                inc == increasing_below::<G>(seed, size),
                size == old(self).v@.len(),
                seed == sym.hash,
                mapp == RandomMapping::seeded(seed).steps::<G>(j),
                rounds_left as int == u64::MAX - j,
                inc && j > 0 ==> reached_below::<G>(seed, size, (j - 1) as nat),
                inc ==> mapp.last_idx >= j,
                inc ==> hit_once::<G>(hits, seed, size, j),
            decreases rounds_left,
        {
            rounds_left = rounds_left - 1;
            first = false;
            let idx = mapp.last_idx as usize;
            let mut cell = self.v[idx];
            cell.apply(sym, direction);
            self.v.set(idx, cell);
            proof {
                if inc {
                    lemma_visit_step::<G>(hits, seed, size, j);
                }
                hits = hits.update(idx as int, hits[idx as int] + 1);
            }
            mapp.next_index::<G>();
            proof {
                if inc {
                    assert(RandomMapping::seeded(seed).steps::<G>(j + 1).last_idx > RandomMapping::seeded(seed).steps::<G>(j).last_idx);
                }
                j = j + 1;
            }
        }
        proof {
            if hits.len() > 0 {
                assert(!first);
            }
            if inc {
                assert(j <= mapp.last_idx);
                assert(mapp.last_idx >= size);
                lemma_visit_end::<T, G>(self.v@, old(self).v@, *sym, direction, hits, j);
            }
        }
    }

    /// Inserts `sym`.
    pub fn add_hashed_symbol<G: IndexGap>(&mut self, sym: &HashedSymbol<T>)
        ensures
            exists|hits: Seq<nat>|
                folded_from(final(self).v@, old(self).v@, *sym, Direction::ADD, hits) && (hits.len()
                    > 0 ==> hits[0] > 0),
            increasing_below::<G>(sym.hash, old(self).v@.len() as int) ==> folded_once::<T, G>(
                final(self).v@,
                old(self).v@,
                *sym,
                Direction::ADD,
            ),
    {
        self.fold_hashed_symbol::<G>(sym, Direction::ADD);
    }

    /// Takes `sym` out again.
    pub fn remove_hashed_symbol<G: IndexGap>(&mut self, sym: &HashedSymbol<T>)
        ensures
            exists|hits: Seq<nat>|
                folded_from(final(self).v@, old(self).v@, *sym, Direction::REMOVE, hits) && (
                hits.len() > 0 ==> hits[0] > 0),
            increasing_below::<G>(sym.hash, old(self).v@.len() as int) ==> folded_once::<T, G>(
                final(self).v@,
                old(self).v@,
                *sym,
                Direction::REMOVE,
            ),
    {
        self.fold_hashed_symbol::<G>(sym, Direction::REMOVE);
    }

    /// Inserts `sym` paired with its hash.
    pub fn add_symbol<G: IndexGap>(&mut self, sym: &T)
        ensures
            exists|hits: Seq<nat>|
                folded_from(
                    final(self).v@,
                    old(self).v@,
                    HashedSymbol { symbol: *sym, hash: sym.hash_spec() },
                    Direction::ADD,
                    hits,
                ) && (hits.len() > 0 ==> hits[0] > 0),
            increasing_below::<G>(sym.hash_spec(), old(self).v@.len() as int) ==> folded_once::<T, G>(
                final(self).v@,
                old(self).v@,
                HashedSymbol { symbol: *sym, hash: sym.hash_spec() },
                Direction::ADD,
            ),
    {
        let h = sym.hash();
        self.add_hashed_symbol::<G>(&HashedSymbol { symbol: *sym, hash: h });
    }

    /// Takes `sym`, paired with its hash, out again.
    pub fn remove_symbol<G: IndexGap>(&mut self, sym: &T)
        ensures
            exists|hits: Seq<nat>|
                folded_from(
                    final(self).v@,
                    old(self).v@,
                    HashedSymbol { symbol: *sym, hash: sym.hash_spec() },
                    Direction::REMOVE,
                    hits,
                ) && (hits.len() > 0 ==> hits[0] > 0),
            increasing_below::<G>(sym.hash_spec(), old(self).v@.len() as int) ==> folded_once::<T, G>(
                final(self).v@,
                old(self).v@,
                HashedSymbol { symbol: *sym, hash: sym.hash_spec() },
                Direction::REMOVE,
            ),
    {
        let h = sym.hash();
        self.remove_hashed_symbol::<G>(&HashedSymbol { symbol: *sym, hash: h });
    }

    /// Subtracts `other` cell by cell; sketches of different sizes are refused.
    pub fn subtract(&mut self, other: &Sketch<T>) -> (r: Result<(), Error>)
        ensures
            r is Err <==> old(self).v@.len() != other.v@.len(),
            r is Err ==> r == Err::<(), Error>(Error::InvalidSize) && final(self).v@ == old(self).v@,
            r is Ok ==> final(self).v@.len() == old(self).v@.len() && forall|i: int|
                0 <= i < old(self).v@.len() ==> #[trigger] final(self).v@[i] == cell_diff(
                    old(self).v@[i],
                    other.v@[i],
                ),
    {
        if self.v.len() != other.v.len() {
            return Err(Error::InvalidSize);
        }
        let mut i: usize = 0;
        while i < self.v.len()
            invariant
                self.v@.len() == old(self).v@.len(),
                self.v@.len() == other.v@.len(),
                i <= self.v@.len(),
                forall|j: int| 0 <= j < i ==> #[trigger] self.v@[j] == cell_diff(old(self).v@[j], other.v@[j]),
                forall|j: int| i <= j < self.v@.len() ==> #[trigger] self.v@[j] == old(self).v@[j],
            decreases self.v@.len() - i,
        {
            let a = self.v[i];
            let b = other.v[i];
            let c = CodedSymbol {
                symbol: a.symbol.xor(&b.symbol),
                hash: a.hash ^ b.hash,
                count: a.count.wrapping_sub(b.count),
            };
            self.v.set(i, c);
            i = i + 1;
        }
        Ok(())
    }

    /// Replays every cell, in order, into a fresh decoder and peels it.
    pub fn decode<G: IndexGap>(&mut self) -> (r: Result<SketchDecodeResult<T>, Error>)
        requires
            old(self).v@.len() < i64::MAX,
        ensures
            final(self).v@ == old(self).v@,
            r is Err ==> r == Err::<SketchDecodeResult<T>, Error>(Error::InvalidDegree),
            r is Ok ==> r->Ok_0.is_decoded ==> r->Ok_0.fwd@.len() + r->Ok_0.rev@.len() <= old(self).v@.len(),
            (forall|i: int| 0 <= i < old(self).v@.len() ==> #[trigger] old(self).v@[i].is_empty_cell()) ==> r is Ok
                && r->Ok_0.fwd@.len() == 0 && r->Ok_0.rev@.len() == 0 && r->Ok_0.is_decoded,
            exists|trace: Seq<Decoder<T>>|
                trace.len() >= 1 && fed_with(trace[0], old(self).v@) && #[trigger] Decoder::peel_run::<G>(trace)
                    && ({
                    let last = trace.last();
                    let m = trace.len() - 1;
                    &&& r is Err <==> (m < last.decodable@.len() && last.num_decoded < u64::MAX
                        && !last.scheduled(m).peelable())
                    &&& r is Ok ==> (m == last.decodable@.len() || last.num_decoded == u64::MAX)
                        && r->Ok_0.fwd@ == last.remote.symbols@ && r->Ok_0.rev@ == last.local.symbols@
                        && r->Ok_0.is_decoded == (last.num_decoded == old(self).v@.len())
                }),
    {
        let ghost all_empty = forall|i: int| 0 <= i < old(self).v@.len() ==> #[trigger] old(self).v@[i].is_empty_cell();
        let mut dec: Decoder<T> = Decoder::new();
        let mut i: usize = 0;
        while i < self.v.len()
            invariant
                dec.wf(),
                i <= self.v@.len(),
                self.v@.len() < i64::MAX,
                dec.coded@.len() == i,
                dec.window.next_idx == i,
                dec.num_decoded == 0,
                dec.decodable@.len() <= i,
                self.v@ == old(self).v@,
                dec.coded@ == self.v@.subrange(0, i as int),
                dec.decodable@ == pure_indices(self.v@, i as nat),
                dec.window.symbols@.len() == 0 && dec.remote.symbols@.len() == 0 && dec.local.symbols@.len() == 0,
                all_empty == (forall|k: int| 0 <= k < old(self).v@.len() ==> #[trigger] old(self).v@[k].is_empty_cell()),
                all_empty ==> dec.coded@ == self.v@.subrange(0, i as int),
                all_empty ==> dec.decodable@.len() == i && forall|k: int| 0 <= k < i ==> #[trigger] dec.decodable@[k] == k,
                all_empty ==> dec.window.symbols@.len() == 0 && dec.remote.symbols@.len() == 0
                    && dec.local.symbols@.len() == 0,
            decreases self.v@.len() - i,
        {
            let ghost before = dec;
            proof {
                reveal(Decoder::wf);
            }
            dec.add_coded_symbol::<G>(&self.v[i]);
            proof {
                {
                    assert(before.window.window_is_clean::<G>());
                    assert(before.remote.window_is_clean::<G>());
                    assert(before.local.window_is_clean::<G>());
                    let (pw, pr, pl) = choose|pw: Seq<int>, pr: Seq<int>, pl: Seq<int>|
                        due_exactly(pw, before.window.mappings@, before.window.next_idx) && due_exactly(
                            pr,
                            before.remote.mappings@,
                            before.coded@.len() as u64,
                        ) && due_exactly(pl, before.local.mappings@, before.coded@.len() as u64)
                            && #[trigger] dec.coded@.last() == applied_all(
                            applied_all(
                                applied_all(self.v@[i as int], before.window.symbols@, pw, Direction::REMOVE),
                                before.remote.symbols@,
                                pr,
                                Direction::REMOVE,
                            ),
                            before.local.symbols@,
                            pl,
                            Direction::ADD,
                        );
                    if pw.len() > 0 {
                        assert(all_due(pw, before.window.mappings@, before.window.next_idx));
                        assert(0 <= pw[0] < before.window.mappings@.len());
                    }
                    if pr.len() > 0 {
                        assert(0 <= pr[0] < before.remote.mappings@.len());
                    }
                    if pl.len() > 0 {
                        assert(0 <= pl[0] < before.local.mappings@.len());
                    }
                    assert(dec.coded@.last() == self.v@[i as int]);
                    assert(dec.coded@ =~= self.v@.subrange(0, i + 1));
                    if all_empty {
                        assert(self.v@[i as int].is_empty_cell());
                        assert(dec.coded@.last().is_pure());
                    }
                    assert(dec.decodable@ =~= pure_indices(self.v@, (i + 1) as nat));
                }
            }
            i = i + 1;
        }
        proof {
            if all_empty {
                assert forall|k: int| 0 <= k < dec.decodable@.len() implies #[trigger] dec.coded@[dec.decodable@[k] as int].is_empty_cell() by {
                    assert(dec.decodable@[k] == k);
                    assert(self.v@[k].is_empty_cell());
                }
            }
        }
        let ghost fed = dec;
        assert(fed_with(fed, old(self).v@)) by {
            assert(self.v@.subrange(0, self.v@.len() as int) =~= self.v@);
        }
        let res = dec.try_decode::<G>();
        proof {
            reveal(Decoder::wf);
        }
        let ghost trace = choose|trace: Seq<Decoder<T>>|
            trace.len() >= 1 && trace[0] == fed && #[trigger] Decoder::peel_run::<G>(trace) && ({
                let last = trace.last();
                let m = trace.len() - 1;
                &&& res is Err <==> (m < last.decodable@.len() && last.num_decoded < u64::MAX
                    && !last.scheduled(m).peelable())
                &&& res is Err ==> dec == last
                &&& res is Ok ==> (m == last.decodable@.len() || last.num_decoded == u64::MAX)
                    && dec.coded == last.coded && dec.remote == last.remote
                    && dec.local == last.local && dec.window == last.window
                    && dec.num_decoded == last.num_decoded
            });
        let r = match res {
            Ok(()) => Ok(
                SketchDecodeResult {
                    fwd: dec.get_remote_symbols(),
                    rev: dec.get_local_symbols(),
                    is_decoded: dec.decoded(),
                },
            ),
            Err(e) => Err(e),
        };
        assert(trace[0] == fed);
        r
    }
}

} // verus!
