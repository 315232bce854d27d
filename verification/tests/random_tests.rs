use furze::Builder;
use furze::FST;
use rand::distributions::Alphanumeric;
use rand::Rng;

fn random_pairs(count: usize, len: usize) -> Vec<(Vec<u8>, u64)> {
    let mut pairs: Vec<(Vec<u8>, u64)> = Vec::with_capacity(count);
    for _ in 0..count {
        let key: String = rand::thread_rng()
            .sample_iter(&Alphanumeric)
            .take(len)
            .map(char::from)
            .collect();
        let value = rand::thread_rng().gen_range(0..65535) as u64;
        pairs.push((key.into_bytes(), value));
    }
    pairs.sort_by(|a, b| a.0.cmp(&b.0));
    pairs.dedup_by(|a, b| a.0 == b.0);
    pairs
}

#[test]
fn test_fst() {
    let pairs = random_pairs(1024000, 9);
    let mut builder = Builder::new(Vec::with_capacity(4 * 1024));
    for (key, value) in pairs.iter() {
        builder.add(key, *value).unwrap();
    }
    builder.finish().unwrap();
    let fst = FST::load(builder.bytes().clone());
    for (key, value) in pairs.iter() {
        let res = fst.get(key).unwrap();
        assert!(res == *value);
    }
    builder.reset();
    assert!(builder.bytes().is_empty());
}

#[test]
fn lib_test_fst() {
    let pairs = random_pairs(1024000, 30);
    let mut builder = Builder::new(Vec::new());
    for (key, value) in pairs.iter() {
        builder.add(key, *value).unwrap();
    }
    builder.finish().unwrap();
    let fst = FST::load(builder.bytes().clone());
    for (key, value) in pairs.iter() {
        let res = fst.get(key).unwrap();
        assert!(res == *value);
    }
}

#[test]
fn test_iter() {
    let pairs = random_pairs(102, 30);
    let mut builder = Builder::new(Vec::with_capacity(4 * 1024));
    for (key, value) in pairs.iter() {
        builder.add(key, *value).unwrap();
    }
    builder.finish().unwrap();
    let fst = FST::load(builder.bytes().clone());
    let mut iter = fst.iter();
    let mut i = 0;
    while let Some((k, v)) = iter.next() {
        assert!(String::from_utf8_lossy(&pairs[i].0) == String::from_utf8_lossy(k.as_ref()));
        assert!(pairs[i].1 == v);
        i += 1;
    }
    assert_eq!(i, pairs.len());
    builder.reset();
}
