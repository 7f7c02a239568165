use rateless_iblt::encoding::{
    CodedSymbol, Decoder, Direction, Encoder, Error, HashedSymbol, IndexGap, RandomMapping, Symbol,
};
use rateless_iblt::sketch::Sketch;
use rateless_iblt::testing::new_test_symbol;

struct FloatGap;

impl IndexGap for FloatGap {
    fn gap_spec(last_idx: u64, r: u64) -> u64 {
        Self::gap(last_idx, r)
    }

    fn gap(last_idx: u64, r: u64) -> u64 {
        (((last_idx as f64) + 1.5) * (((1i64 << 32) as f64) / f64::sqrt((r as f64) + 1.0) - 1.0))
            .ceil() as u64
    }
}

fn reference_indices(seed: u64, n: usize) -> Vec<u64> {
    let mut prng = seed;
    let mut last: u64 = 0;
    let mut out = Vec::new();
    for _ in 0..n {
        let r = prng.wrapping_mul(0xda942042e4dd58b5);
        prng = r;
        let d = (((last as f64) + 1.5) * (((1i64 << 32) as f64) / f64::sqrt((r as f64) + 1.0) - 1.0))
            .ceil() as u64;
        last = last.wrapping_add(d);
        out.push(last);
    }
    out
}

fn sorted_symbols(v: &[HashedSymbol<u64>]) -> Vec<u64> {
    let mut s: Vec<u64> = v.iter().map(|h| h.symbol).collect();
    s.sort();
    s
}

fn same_cell(a: &CodedSymbol<u64>, b: &CodedSymbol<u64>) -> bool {
    a.symbol == b.symbol && a.hash == b.hash && a.count == b.count
}

/// Feeds coded symbols of `a` into a decoder holding `b` until it decodes.
fn reconcile(a: &[u64], b: &[u64], limit: usize) -> (Vec<u64>, Vec<u64>, usize) {
    let mut enc: Encoder<u64> = Encoder::new();
    for x in a {
        enc.add_symbol(x);
    }
    let mut dec: Decoder<u64> = Decoder::new();
    for x in b {
        dec.add_symbol(x);
    }
    let mut used = 0;
    while used < limit {
        let c = enc.produce_next_coded_symbol::<FloatGap>();
        dec.add_coded_symbol::<FloatGap>(&c);
        used += 1;
        assert!(dec.try_decode::<FloatGap>().is_ok());
        if dec.decoded() {
            break;
        }
    }
    assert!(dec.decoded());
    (
        sorted_symbols(&dec.get_remote_symbols()),
        sorted_symbols(&dec.get_local_symbols()),
        used,
    )
}

#[test]
fn mapping_reference_vector_seed_one() {
    let mut m = RandomMapping { prng: 1, last_idx: 0 };
    let got: Vec<u64> = (0..5).map(|_| m.next_index::<FloatGap>()).collect();
    assert_eq!(got, reference_indices(1, 5));
    assert_eq!(got, vec![1, 2, 3, 6, 11]);
    assert_eq!(m.prng, 1u64.wrapping_mul(0xda942042e4dd58b5).wrapping_mul(0xda942042e4dd58b5)
        .wrapping_mul(0xda942042e4dd58b5).wrapping_mul(0xda942042e4dd58b5)
        .wrapping_mul(0xda942042e4dd58b5));
}

#[test]
fn mapping_strictly_increasing() {
    for seed in [1u64, 2, 3, 12345, 0xdead_beef, u64::MAX / 3] {
        let mut m = RandomMapping { prng: seed, last_idx: 0 };
        let mut prev = 0u64;
        for _ in 0..40 {
            let x = m.next_index::<FloatGap>();
            assert!(x > prev);
            prev = x;
        }
    }
}

#[test]
fn mapping_same_seed_same_sequence() {
    let mut a = RandomMapping { prng: 987654321, last_idx: 0 };
    let mut b = RandomMapping { prng: 987654321, last_idx: 0 };
    for _ in 0..50 {
        assert_eq!(a.next_index::<FloatGap>(), b.next_index::<FloatGap>());
    }
}

#[test]
fn apply_then_unapply_restores_cell() {
    let mut c = CodedSymbol { symbol: 77u64, hash: 0x1234, count: 3 };
    let h = HashedSymbol { symbol: 5u64, hash: 5u64.hash() };
    c.apply(&h, Direction::ADD);
    assert_eq!(c.symbol, 77 ^ 5);
    assert_eq!(c.hash, 0x1234 ^ h.hash);
    assert_eq!(c.count, 4);
    c.apply(&h, Direction::REMOVE);
    assert!(same_cell(&c, &CodedSymbol { symbol: 77u64, hash: 0x1234, count: 3 }));
}

#[test]
fn apply_count_wraps() {
    let mut c = CodedSymbol { symbol: 0u64, hash: 0, count: i64::MAX };
    let h = HashedSymbol { symbol: 1u64, hash: 9 };
    c.apply(&h, Direction::ADD);
    assert_eq!(c.count, i64::MIN);
}

#[test]
fn produce_ignores_insertion_order() {
    let mut e1: Encoder<u64> = Encoder::new();
    let mut e2: Encoder<u64> = Encoder::new();
    for x in 1..=50u64 {
        e1.add_symbol(&x);
    }
    for x in (1..=50u64).rev() {
        e2.add_symbol(&x);
    }
    for _ in 0..200 {
        let a = e1.produce_next_coded_symbol::<FloatGap>();
        let b = e2.produce_next_coded_symbol::<FloatGap>();
        assert!(same_cell(&a, &b));
    }
}

#[test]
fn first_coded_symbol_holds_every_symbol() {
    let mut e: Encoder<u64> = Encoder::new();
    for x in [3u64, 9, 12] {
        e.add_symbol(&x);
    }
    let c = e.produce_next_coded_symbol::<FloatGap>();
    assert_eq!(c.symbol, 3 ^ 9 ^ 12);
    assert_eq!(c.count, 3);
    assert_eq!(c.hash, 3u64.hash() ^ 9u64.hash() ^ 12u64.hash());
    assert_eq!(e.next_idx, 1);
}

#[test]
fn empty_encoder_produces_zero_cells() {
    let mut e: Encoder<u64> = Encoder::new();
    for i in 0..5u64 {
        let c = e.produce_next_coded_symbol::<FloatGap>();
        assert!(same_cell(&c, &CodedSymbol { symbol: 0, hash: 0, count: 0 }));
        assert_eq!(e.next_idx, i + 1);
    }
}

#[test]
fn encoder_reset_is_fresh() {
    let mut e: Encoder<u64> = Encoder::new();
    for x in 1..=20u64 {
        e.add_symbol(&x);
    }
    for _ in 0..7 {
        e.produce_next_coded_symbol::<FloatGap>();
    }
    e.reset();
    assert_eq!(e.next_idx, 0);
    assert!(e.symbols.is_empty() && e.mappings.is_empty() && e.queue.is_empty());
    for x in 1..=20u64 {
        e.add_symbol(&x);
    }
    let mut f: Encoder<u64> = Encoder::new();
    for x in 1..=20u64 {
        f.add_symbol(&x);
    }
    for _ in 0..30 {
        let a = e.produce_next_coded_symbol::<FloatGap>();
        let b = f.produce_next_coded_symbol::<FloatGap>();
        assert!(same_cell(&a, &b));
    }
}

#[test]
fn decoder_reset_is_fresh() {
    let mut d: Decoder<u64> = Decoder::new();
    d.add_symbol(&4);
    d.add_coded_symbol::<FloatGap>(&CodedSymbol { symbol: 1, hash: 2, count: 3 });
    d.reset();
    assert!(d.coded.is_empty() && d.decodable.is_empty());
    assert_eq!(d.num_decoded, 0);
    assert!(d.window.symbols.is_empty());
    assert!(d.get_remote_symbols().is_empty() && d.get_local_symbols().is_empty());
    assert!(d.decoded());
}

#[test]
fn sketch_reset_by_new() {
    let s: Sketch<u64> = Sketch::new(4);
    assert_eq!(s.v.len(), 4);
    for c in &s.v {
        assert!(same_cell(c, &CodedSymbol { symbol: 0, hash: 0, count: 0 }));
    }
}

#[test]
fn identical_sets_decode_at_once() {
    let mut enc: Encoder<u64> = Encoder::new();
    let mut dec: Decoder<u64> = Decoder::new();
    for x in [1u64, 2, 3] {
        enc.add_symbol(&x);
        dec.add_symbol(&x);
    }
    let c = enc.produce_next_coded_symbol::<FloatGap>();
    dec.add_coded_symbol::<FloatGap>(&c);
    assert!(same_cell(&dec.coded[0], &CodedSymbol { symbol: 0, hash: 0, count: 0 }));
    assert!(dec.try_decode::<FloatGap>().is_ok());
    assert!(dec.decoded());
    assert!(dec.get_remote_symbols().is_empty());
    assert!(dec.get_local_symbols().is_empty());
}

#[test]
fn one_extra_local_symbol() {
    let a: Vec<u64> = (1..=100).collect();
    let mut b = a.clone();
    b.push(101);
    let (remote, local, used) = reconcile(&a, &b, 10);
    assert!(remote.is_empty());
    assert_eq!(local, vec![101]);
    assert!(used <= 3);
}

#[test]
fn symmetric_difference_of_ten() {
    let a: Vec<u64> = (1..=1000).collect();
    let b: Vec<u64> = (6..=1005).collect();
    let (remote, local, used) = reconcile(&a, &b, 200);
    assert_eq!(remote, vec![1, 2, 3, 4, 5]);
    assert_eq!(local, vec![1001, 1002, 1003, 1004, 1005]);
    assert!(used >= 10);
}

#[test]
fn to_decoder_uses_encoder_as_window() {
    let mut local_enc: Encoder<u64> = Encoder::new();
    for x in 1..=30u64 {
        local_enc.add_symbol(&x);
    }
    let mut dec = local_enc.to_decoder();
    let mut remote_enc: Encoder<u64> = Encoder::new();
    for x in 3..=31u64 {
        remote_enc.add_symbol(&x);
    }
    for _ in 0..50 {
        let c = remote_enc.produce_next_coded_symbol::<FloatGap>();
        dec.add_coded_symbol::<FloatGap>(&c);
        assert!(dec.try_decode::<FloatGap>().is_ok());
        if dec.decoded() {
            break;
        }
    }
    assert!(dec.decoded());
    assert_eq!(sorted_symbols(&dec.get_remote_symbols()), vec![31]);
    assert_eq!(sorted_symbols(&dec.get_local_symbols()), vec![1, 2]);
}

#[test]
fn try_decode_rejects_high_degree_cell() {
    let mut d: Decoder<u64> = Decoder::new();
    d.add_coded_symbol::<FloatGap>(&CodedSymbol { symbol: 6, hash: 6, count: 5 });
    d.decodable.push(0);
    assert_eq!(d.try_decode::<FloatGap>(), Err(Error::InvalidDegree));
}

fn sketch_of(xs: &[u64], m: usize) -> Sketch<u64> {
    let mut s: Sketch<u64> = Sketch::new(m);
    for x in xs {
        s.add_symbol::<FloatGap>(x);
    }
    s
}

#[test]
fn sketch_difference_sufficient_size() {
    let a: Vec<u64> = (1..=50).collect();
    let mut b: Vec<u64> = (1..=45).collect();
    b.extend(100..=104);
    let mut sa = sketch_of(&a, 50);
    let sb = sketch_of(&b, 50);
    assert!(sa.subtract(&sb).is_ok());
    let r = match sa.decode::<FloatGap>() {
        Ok(r) => r,
        Err(_) => panic!("decode failed"),
    };
    assert!(r.is_decoded);
    assert_eq!(sorted_symbols(&r.fwd), vec![46, 47, 48, 49, 50]);
    assert_eq!(sorted_symbols(&r.rev), vec![100, 101, 102, 103, 104]);
}

#[test]
fn sketch_difference_insufficient_size() {
    let a: Vec<u64> = (1..=50).collect();
    let mut b: Vec<u64> = (1..=45).collect();
    b.extend(100..=104);
    let mut sa = sketch_of(&a, 3);
    let sb = sketch_of(&b, 3);
    assert!(sa.subtract(&sb).is_ok());
    match sa.decode::<FloatGap>() {
        Ok(r) => assert!(!r.is_decoded),
        Err(e) => assert_eq!(e, Error::InvalidDegree),
    }
}

#[test]
fn sketch_subtract_size_mismatch() {
    let mut a: Sketch<u64> = Sketch::new(3);
    let b: Sketch<u64> = Sketch::new(4);
    assert_eq!(a.subtract(&b), Err(Error::InvalidSize));
    assert_eq!(a.v.len(), 3);
}

#[test]
fn sketch_add_remove_restores() {
    let mut s = sketch_of(&[10, 20, 30], 16);
    let before: Vec<(u64, u64, i64)> = s.v.iter().map(|c| (c.symbol, c.hash, c.count)).collect();
    s.add_symbol::<FloatGap>(&99);
    assert_eq!(s.v[0].count, 4);
    s.remove_symbol::<FloatGap>(&99);
    let after: Vec<(u64, u64, i64)> = s.v.iter().map(|c| (c.symbol, c.hash, c.count)).collect();
    assert_eq!(before, after);
}

#[test]
fn sketch_subtract_cellwise() {
    let mut a = sketch_of(&[1, 2], 4);
    let b = sketch_of(&[2], 4);
    let a0 = a.v[0];
    let b0 = b.v[0];
    assert!(a.subtract(&b).is_ok());
    assert_eq!(a.v[0].symbol, a0.symbol ^ b0.symbol);
    assert_eq!(a.v[0].hash, a0.hash ^ b0.hash);
    assert_eq!(a.v[0].count, a0.count - b0.count);
    assert_eq!(a.v[0].count, 1);
}

#[test]
fn u64_symbol_operations() {
    assert_eq!(<u64 as Symbol>::zero(), 0);
    assert_eq!(6u64.xor(&3), 5);
    assert_eq!(7u64.hash(), 7u64.hash());
    assert_ne!(7u64.hash(), 8u64.hash());
    assert_ne!(7u64.hash(), 7);
}

#[test]
fn test_symbol_little_endian() {
    let s = new_test_symbol(0x0102_0304_0506_0708);
    assert_eq!(&s[..8], &[8, 7, 6, 5, 4, 3, 2, 1]);
    assert!(s[8..].iter().all(|b| *b == 0));
    assert_eq!(new_test_symbol(0), [0u8; 64]);
}

#[test]
fn removal_matches_fresh_encoder_from_current_index() {
    let mut e1: Encoder<u64> = Encoder::new();
    let mut e2: Encoder<u64> = Encoder::new();
    for x in 1..=20u64 {
        e1.add_symbol(&x);
        e2.add_symbol(&x);
    }
    e1.add_symbol(&21);
    e1.add_symbol(&22);
    for _ in 0..6 {
        e1.produce_next_coded_symbol::<FloatGap>();
        e2.produce_next_coded_symbol::<FloatGap>();
    }
    assert!(e1.remove_symbol(&21));
    assert!(e1.remove_symbol(&22));
    assert_eq!(e1.symbols.len(), 20);
    for _ in 0..100 {
        let a = e1.produce_next_coded_symbol::<FloatGap>();
        let b = e2.produce_next_coded_symbol::<FloatGap>();
        assert!(same_cell(&a, &b));
    }
}

#[test]
fn removing_absent_symbol_changes_nothing() {
    let mut e: Encoder<u64> = Encoder::new();
    for x in 1..=5u64 {
        e.add_symbol(&x);
    }
    assert!(!e.remove_symbol(&42));
    assert_eq!(e.symbols.len(), 5);
    assert_eq!(e.queue.len(), 5);
}

#[test]
fn try_decode_rejects_empty_count_with_residual_hash() {
    let mut d: Decoder<u64> = Decoder::new();
    d.add_coded_symbol::<FloatGap>(&CodedSymbol { symbol: 6, hash: 6, count: 0 });
    d.decodable.push(0);
    assert_eq!(d.try_decode::<FloatGap>(), Err(Error::InvalidDegree));
}

#[test]
fn all_zero_sketch_decodes_to_nothing() {
    let mut s: Sketch<u64> = Sketch::new(8);
    let r = match s.decode::<FloatGap>() {
        Ok(r) => r,
        Err(_) => panic!("decode failed"),
    };
    assert!(r.is_decoded);
    assert!(r.fwd.is_empty() && r.rev.is_empty());
}

#[test]
fn byte_symbol_operations() {
    let a = new_test_symbol(0x1122);
    let b = new_test_symbol(0x0f0f);
    let z = <[u8; 64] as Symbol>::zero();
    assert_eq!(z, [0u8; 64]);
    assert_eq!(a.xor(&b), new_test_symbol(0x1122 ^ 0x0f0f));
    assert_eq!(a.xor(&b).xor(&b), a);
    assert_eq!(a.hash(), a.hash());
    assert_ne!(a.hash(), b.hash());
}

#[test]
fn byte_symbols_reconcile() {
    let mut enc: Encoder<[u8; 64]> = Encoder::new();
    let mut dec: Decoder<[u8; 64]> = Decoder::new();
    for x in 1..=30u64 {
        enc.add_symbol(&new_test_symbol(x));
    }
    for x in 3..=32u64 {
        dec.add_symbol(&new_test_symbol(x));
    }
    for _ in 0..100 {
        let c = enc.produce_next_coded_symbol::<FloatGap>();
        dec.add_coded_symbol::<FloatGap>(&c);
        assert!(dec.try_decode::<FloatGap>().is_ok());
        if dec.decoded() {
            break;
        }
    }
    assert!(dec.decoded());
    let mut remote: Vec<[u8; 64]> = dec.get_remote_symbols().iter().map(|h| h.symbol).collect();
    let mut local: Vec<[u8; 64]> = dec.get_local_symbols().iter().map(|h| h.symbol).collect();
    remote.sort();
    local.sort();
    assert_eq!(remote, vec![new_test_symbol(1), new_test_symbol(2)]);
    let mut want = vec![new_test_symbol(31), new_test_symbol(32)];
    want.sort();
    assert_eq!(local, want);
}
