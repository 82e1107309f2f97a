use indexing::rng::{Rng, Shuffler, LFSRF};
use indexing::{dyn_iter, Cross, Indexing, KSubmultisets, KSubsets, OpsRef, Shuffled};
use std::collections::HashSet;
use std::fmt::Debug;
use std::hash::Hash;

fn test_aperiodicity_for_length<S: Shuffler>(length: usize) -> bool {
    let mut l = Rng::<S>::for_length(length);
    let mut s = HashSet::new();
    // one pass over the length must not repeat an output
    for i in 0..length {
        let e = l.next();
        if s.contains(&e) {
            println!("{} iterator repeated itself on the {}th iteration", length, i);
            return true;
        }
        s.insert(e);
    }
    false
}

fn hashset_acc_without_repeat<T: Hash + Eq + Debug, D: Indexing<Item = T>>(
    mut all: indexing::IndexingIter<D>,
) -> HashSet<T> {
    let mut ac = HashSet::new();
    while let Some(e) = all.next() {
        if ac.contains(&e) {
            panic!("duplicate {:?}", &e);
        }
        ac.insert(e);
    }
    ac
}

#[test]
fn compound_lfsr() {
    let an = 8;
    let bn = 7;
    let d = Shuffled::<_, LFSRF>::new(Cross(0..an, 0..bn));
    let sn = d.len();
    let mut i = 0;
    let mut hs = HashSet::new();
    let mut it = d.iter();
    while let Some((a, b)) = it.next() {
        assert!(a < an);
        assert!(b < bn);
        assert!(i < sn);
        println!("{:?}", (a, b));
        if hs.contains(&(a, b)) {
            panic!("{:?} was repeated", (a, b));
        }
        hs.insert((a, b));
        i += 1;
    }
    assert_eq!(i, sn);
}

#[test]
fn map() {
    let c1 = Cross(0..2, 0..2);
    let c2 = c1.clone();
    let m = c1.map(|(a, b)| format!("{a}{b}"));
    let mut it = m.iter();
    let mut v: Vec<String> = Vec::new();
    while let Some(s) = it.next() {
        v.push(s);
    }
    assert_eq!(&v, &["00", "01", "10", "11"]);
    let _c2m = c2.into_map(|(a, b): (usize, usize)| a + b);
}

#[test]
fn u8_for_all_shufflers() {
    assert!(!test_aperiodicity_for_length::<LFSRF>(256));
}

#[test]
fn lfsr() {
    if test_aperiodicity_for_length::<LFSRF>(2)
        || test_aperiodicity_for_length::<LFSRF>(4)
        || test_aperiodicity_for_length::<LFSRF>(8)
        || test_aperiodicity_for_length::<LFSRF>(9)
        || test_aperiodicity_for_length::<LFSRF>(10)
        || test_aperiodicity_for_length::<LFSRF>(11)
        || test_aperiodicity_for_length::<LFSRF>(12)
        || test_aperiodicity_for_length::<LFSRF>(13)
    {
        panic!("oh no, we don't understand");
    }
}

#[test]
fn ksubsetsmulti() {
    let k = KSubmultisets::new(2, 3);
    assert_eq!(k.len(), 4);
    let mut ac = HashSet::new();
    let mut it = k.iter();
    while let Some(e) = it.next() {
        ac.insert(e);
    }
    assert_eq!(ac.len(), 4);
}

#[test]
fn ksubsetsmulti_format() {
    let k = KSubmultisets::new(2, 3);
    let mut ac = HashSet::new();
    let mut it = k.iter();
    while let Some(e) = it.next() {
        if ac.contains(&e) {
            panic!("duplicate {:?}", &e);
        }
        ac.insert(e);
    }
    let mut cc = HashSet::new();
    cc.insert(vec![0, 1, 1]);
    cc.insert(vec![0, 0, 1]);
    cc.insert(vec![0, 0, 0]);
    cc.insert(vec![1, 1, 1]);
    assert_eq!(&ac, &cc);
}

#[test]
fn ksubsetsmulti_format_more() {
    let k = KSubmultisets::new(4, 2);
    let mut ac = HashSet::new();
    let mut it = k.iter();
    while let Some(e) = it.next() {
        if ac.contains(&e) {
            panic!("duplicate {:?}", &e);
        }
        ac.insert(e);
    }
    let mut cc = HashSet::new();
    cc.insert(vec![0, 0]);
    cc.insert(vec![0, 1]);
    cc.insert(vec![1, 1]);
    cc.insert(vec![0, 2]);
    cc.insert(vec![1, 2]);
    cc.insert(vec![2, 2]);
    cc.insert(vec![0, 3]);
    cc.insert(vec![1, 3]);
    cc.insert(vec![2, 3]);
    cc.insert(vec![3, 3]);
    assert_eq!(&ac, &cc);
}

#[test]
fn ksubsets_format() {
    let k = KSubsets::new(3, 2);
    let ac = hashset_acc_without_repeat(k.iter());
    let mut cc = HashSet::new();
    cc.insert(vec![0, 1]);
    cc.insert(vec![0, 2]);
    cc.insert(vec![1, 2]);
    assert_eq!(&ac, &cc);
}

#[test]
fn ksubsets() {
    let k = KSubsets::new(4, 2);
    assert_eq!(k.len(), 6);
    let mut ac = HashSet::new();
    let mut it = k.iter();
    while let Some(e) = it.next() {
        ac.insert(e);
    }
    assert_eq!(ac.len(), 6);
}

#[test]
fn object_safety() {
    let o: Box<dyn Indexing<Item = usize>> = Box::new(0..3);
    o.get(0);
    let mut it = o.iter();
    while let Some(_e) = it.next() {}
    dyn_iter(o);
}
