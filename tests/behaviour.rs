use indexing::rng::{DefaultShuffler, Rng, Shuffler, LFSRF, TAPS};
use indexing::{
    dyn_iter, light_shuffle, Cross, IndexVec, Indexing, KSubmultisets, KSubsets, Once, OpsRef,
    Series, Shuffled, Truncate,
};
use std::collections::HashSet;

fn shuffled_positions(n: usize) -> Vec<usize> {
    let d = Shuffled::<_, LFSRF>::new(0..n);
    assert_eq!(d.len(), n);
    (0..n).map(|at| d.get(at)).collect()
}

#[test]
fn shuffle_visits_each_position_once() {
    for n in [1usize, 2, 3, 7, 8, 15, 16, 56, 100, 255, 256, 1000] {
        let got: HashSet<usize> = shuffled_positions(n).into_iter().collect();
        let want: HashSet<usize> = (0..n).collect();
        assert_eq!(got, want, "n = {n}");
    }
}

#[test]
fn shuffle_of_product_is_a_permutation() {
    let d = Shuffled::<_, LFSRF>::new(Cross(0..8usize, 0..7usize));
    assert_eq!(d.len(), 56);
    let got: HashSet<(usize, usize)> = (0..56).map(|at| d.get(at)).collect();
    assert_eq!(got.len(), 56);
    for a in 0..8 {
        for b in 0..7 {
            assert!(got.contains(&(a, b)));
        }
    }
}

#[test]
fn shuffle_exact_positions() {
    assert_eq!(shuffled_positions(10), vec![7, 8, 0, 1, 9, 4, 2, 3, 5, 6]);
}

#[test]
fn light_shuffle_uses_default_core() {
    let a = light_shuffle(0..30usize);
    let b = Shuffled::<_, DefaultShuffler>::new(0..30usize);
    for at in 0..30 {
        assert_eq!(a.get(at), b.get(at));
    }
}

#[test]
fn shuffles_are_deterministic() {
    let a = Shuffled::<_, LFSRF>::new(0..500usize);
    let b = Shuffled::<_, LFSRF>::new(0..500usize);
    for at in 0..500 {
        assert_eq!(a.get(at), b.get(at));
    }
}

#[test]
fn generators_are_deterministic() {
    let mut a = Rng::<LFSRF>::for_length(1000);
    let mut b = Rng::<LFSRF>::for_length(1000);
    for _ in 0..3000 {
        assert_eq!(a.next(), b.next());
    }
}

#[test]
fn generator_exact_outputs() {
    let mut r = Rng::<LFSRF>::for_length(10);
    let got: Vec<u64> = (0..10).map(|_| r.next()).collect();
    assert_eq!(got, vec![4, 9, 6, 2, 0, 7, 3, 1, 8, 5]);
    assert_eq!(r.length, 10);
}

#[test]
fn generator_of_length_one() {
    let mut r = Rng::<LFSRF>::for_length(1);
    for _ in 0..5 {
        assert_eq!(r.next(), 0);
    }
}

#[test]
fn register_width_is_smallest_covering() {
    let cases = [(0usize, 1u32), (1, 1), (2, 2), (3, 2), (4, 3), (7, 3), (8, 4), (255, 8), (256, 9)];
    for (length, width) in cases {
        let c = LFSRF::for_length(length);
        assert_eq!(c.size, width, "length {length}");
        assert_eq!(c.taps, TAPS[(width - 1) as usize]);
    }
}

#[test]
fn initial_state_is_salt_modulo_length() {
    assert_eq!(LFSRF::initial_state(100), 55);
    assert_eq!(LFSRF::initial_state(10), 5);
    // zero is replaced by one: the register never holds zero
    assert_eq!(LFSRF::initial_state(1), 1);
}

#[test]
fn lfsr_step_exact() {
    let c = LFSRF { taps: 0x3, size: 2 };
    assert_eq!(c.next(1), 2);
    assert_eq!(c.next(2), 3);
    assert_eq!(c.next(3), 1);
    assert_eq!(c.state_to_output(3), 2);
    assert_eq!(c.output_to_state(2), 3);
}

fn raw_register_repeats(width: u32) -> bool {
    let length = (1usize << width) - 1;
    let core = LFSRF::for_length(length);
    assert_eq!(core.size, width);
    let mut state = LFSRF::initial_state(length);
    let mut seen = HashSet::new();
    for _ in 0..(1usize << width) - 3 {
        if !seen.insert(state) {
            return true;
        }
        state = core.next(state);
    }
    false
}

#[test]
fn raw_register_has_long_period() {
    for width in [2u32, 4, 8, 9, 10, 11, 12, 13] {
        assert!(!raw_register_repeats(width), "width {width}");
    }
}

#[test]
fn cross_flattening() {
    let c = Cross(0..5usize, 0..3usize);
    assert_eq!(c.len(), 15);
    for at in 0..15 {
        assert_eq!(c.get(at), (at / 3, at % 3));
    }
    let small = Cross(0..2usize, 0..2usize);
    let got: Vec<(usize, usize)> = (0..small.len()).map(|at| small.get(at)).collect();
    assert_eq!(got, vec![(0, 0), (0, 1), (1, 0), (1, 1)]);
}

#[test]
fn cross_with_offset_ranges() {
    let c = Cross(10..12usize, 5..8usize);
    assert_eq!(c.len(), 6);
    assert_eq!(c.get(4), (11, 6));
}

#[test]
fn map_keeps_length_and_applies_function() {
    let c = Cross(0..3usize, 0..4usize);
    let m = c.map(|(a, b)| a * 10 + b);
    assert_eq!(m.len(), c.len());
    for at in 0..c.len() {
        let (a, b) = c.get(at);
        assert_eq!(m.get(at), a * 10 + b);
    }
    let owned = Cross(0..2usize, 0..2usize).into_map(|(a, b): (usize, usize)| a + b);
    assert_eq!(owned.len(), 4);
    assert_eq!(owned.get(3), 2);
}

#[test]
fn series_concatenates() {
    let s = Series(0..3usize, 10..12usize);
    assert_eq!(s.len(), 5);
    let got: Vec<Result<usize, usize>> = (0..5).map(|at| s.get(at)).collect();
    assert_eq!(got, vec![Ok(0), Ok(1), Ok(2), Err(10), Err(11)]);
}

#[test]
fn truncate_takes_prefix() {
    let t = Truncate(3, 4..10usize);
    assert_eq!(t.len(), 3);
    assert_eq!(t.get(2), 6);
    let longer = Truncate(20, 0..10usize);
    assert_eq!(longer.len(), 10);
    assert_eq!(longer.get(9), 9);
}

#[test]
fn once_and_index_vec() {
    let o = Once(String::from("x"));
    assert_eq!(o.len(), 1);
    assert_eq!(o.get(0), "x");
    let v = IndexVec(vec![String::from("a"), String::from("b"), String::from("c")]);
    assert_eq!(v.len(), 3);
    assert_eq!(v.get(1), "b");
}

#[test]
fn empty_range() {
    let r = 5..5usize;
    assert_eq!(Indexing::len(&r), 0);
    let reversed = 7..3usize;
    assert_eq!(Indexing::len(&reversed), 0);
}

#[test]
fn ksubsets_exact_order() {
    let k = KSubsets::new(4, 2);
    assert_eq!(k.len(), 6);
    let got: Vec<Vec<usize>> = (0..6).map(|at| k.get(at)).collect();
    assert_eq!(
        got,
        vec![vec![0, 1], vec![0, 2], vec![1, 2], vec![0, 3], vec![1, 3], vec![2, 3]]
    );
}

#[test]
fn ksubsets_counts_and_decodes() {
    assert_eq!(KSubsets::new(10, 3).len(), 120);
    assert_eq!(KSubsets::new(5, 3).get(5), vec![0, 2, 4]);
    assert_eq!(KSubsets::new(5, 3).get(9), vec![2, 3, 4]);
}

#[test]
fn ksubsets_degenerate() {
    assert_eq!(KSubsets::new(3, 5).len(), 0);
    let none = KSubsets::new(3, 0);
    assert_eq!(none.len(), 1);
    assert_eq!(none.get(0), Vec::<usize>::new());
    assert_eq!(KSubsets::new(0, 0).len(), 1);
}

#[test]
fn ksubmultisets_exact() {
    let k = KSubmultisets::new(2, 3);
    assert_eq!(k.len(), 4);
    let got: Vec<Vec<usize>> = (0..4).map(|at| k.get(at)).collect();
    assert_eq!(got, vec![vec![0, 0, 0], vec![0, 0, 1], vec![0, 1, 1], vec![1, 1, 1]]);
    let pairs = KSubmultisets::new(4, 2);
    assert_eq!(pairs.len(), 10);
    let got: HashSet<Vec<usize>> = (0..10).map(|at| pairs.get(at)).collect();
    let mut want = HashSet::new();
    for i in 0..4 {
        for j in i..4 {
            want.insert(vec![i, j]);
        }
    }
    assert_eq!(got, want);
}

#[test]
fn ksubmultisets_degenerate() {
    assert_eq!(KSubmultisets::new(0, 2).len(), 0);
    assert_eq!(KSubmultisets::new(3, 0).len(), 1);
    assert_eq!(KSubmultisets::new(1, 4).len(), 1);
    assert_eq!(KSubmultisets::new(1, 4).get(0), vec![0, 0, 0, 0]);
}

#[test]
fn shuffled_multisets_stay_distinct() {
    let d = Shuffled::<_, LFSRF>::new(KSubmultisets::new(8, 3));
    assert_eq!(d.len(), 120);
    let got: HashSet<Vec<usize>> = (0..120).map(|at| d.get(at)).collect();
    assert_eq!(got.len(), 120);
}

#[test]
fn cursor_runs_out() {
    let mut it = (0..2usize).iter();
    assert_eq!(it.next(), Some(0));
    assert_eq!(it.next(), Some(1));
    assert_eq!(it.next(), None);
    assert_eq!(it.next(), None);
    let mut owned = Indexing::into_iter(3..5usize);
    assert_eq!(owned.next(), Some(3));
}

#[test]
fn boxed_cursor() {
    let o: Box<dyn Indexing<Item = usize>> = Box::new(2..5usize);
    let mut it = dyn_iter(o);
    assert_eq!(it.len, 3);
    assert_eq!(it.next(), Some(2));
    assert_eq!(it.next(), Some(3));
    assert_eq!(it.next(), Some(4));
    assert_eq!(it.next(), None);
}

#[test]
fn shuffle_of_empty_space() {
    let d = Shuffled::<_, LFSRF>::new(0..0usize);
    assert_eq!(d.len(), 0);
    let mut it = d.iter();
    assert_eq!(it.next(), None);
}

#[test]
fn generator_follows_shuffle() {
    let d = Shuffled::<_, LFSRF>::new(0..37usize);
    let mut r = Rng::<LFSRF>::for_length(37);
    let mut prev = r.next();
    for _ in 0..100 {
        let out = r.next();
        assert_eq!(out as usize, d.get(prev as usize));
        prev = out;
    }
}

#[test]
fn largest_supported_length() {
    let c = LFSRF::for_length(0xFFFF_FFFF);
    assert_eq!(c.size, 32);
    assert_eq!(c.taps, TAPS[31]);
    assert_eq!(c.output_to_state(0xFFFF_FFFE), 0xFFFF_FFFF);
    let r = Rng::<LFSRF>::for_length(0xFFFF_FFFF);
    assert_eq!(r.state, 0x2ab18f32a337u64 % 0xFFFF_FFFF);
    assert_eq!(r.length, 0xFFFF_FFFF);
}
