use furze::decoder::copy_slice;
use furze::decoder::Decoder;
use furze::decoder::ReverseReader;
use furze::encoder::Encoder;
use furze::error::FstError;
use furze::Builder;
use furze::Clear;
use furze::FST;
use furze::state::State;

fn build(pairs: &[(Vec<u8>, u64)]) -> Vec<u8> {
    let mut b = Builder::new(Vec::new());
    for (k, v) in pairs.iter() {
        b.add(k, *v).unwrap();
    }
    b.finish().unwrap();
    b.bytes().clone()
}

fn pairs_of(list: &[(&str, u64)]) -> Vec<(Vec<u8>, u64)> {
    list.iter().map(|(k, v)| (k.as_bytes().to_vec(), *v)).collect()
}

#[test]
fn get_after_build_small() {
    let pairs = pairs_of(&[("apple", 3), ("banana", 0), ("cherry", 42), ("date", 7), ("dew", 1)]);
    let fst = FST::load(build(&pairs));
    for (k, v) in pairs.iter() {
        assert_eq!(fst.get(k).unwrap(), *v);
    }
}

#[test]
fn get_after_build_shared_prefixes() {
    let pairs = pairs_of(&[("cab", 30), ("cad", 10), ("cat", 20), ("cow", 5), ("dab", 100)]);
    let fst = FST::load(build(&pairs));
    for (k, v) in pairs.iter() {
        assert_eq!(fst.get(k).unwrap(), *v);
    }
}

#[test]
fn get_after_build_wide_nodes() {
    let mut pairs: Vec<(Vec<u8>, u64)> = Vec::new();
    for c1 in b'a'..=b'l' {
        for c2 in b'a'..=b'l' {
            pairs.push((vec![c1, c2], (c1 as u64) * 1000 + c2 as u64));
        }
    }
    let fst = FST::load(build(&pairs));
    for (k, v) in pairs.iter() {
        assert_eq!(fst.get(k).unwrap(), *v);
    }
    assert_eq!(fst.get(b"gg").unwrap(), 103103);
}

#[test]
fn get_large_values() {
    let pairs = pairs_of(&[("a1", u64::MAX), ("a2", 0), ("b", u64::MAX - 1), ("c", 1 << 40)]);
    let fst = FST::load(build(&pairs));
    for (k, v) in pairs.iter() {
        assert_eq!(fst.get(k).unwrap(), *v);
    }
}

#[test]
fn get_missing_key_greater() {
    let fst = FST::load(build(&pairs_of(&[("b", 1), ("d", 2)])));
    assert!(matches!(fst.get(b"c"), Err(FstError::Greater)));
    assert!(matches!(fst.get(b"a"), Err(FstError::Greater)));
}

#[test]
fn get_missing_key_not_found() {
    let fst = FST::load(build(&pairs_of(&[("b", 1), ("d", 2)])));
    assert!(matches!(fst.get(b"e"), Err(FstError::NotFound)));
}

#[test]
fn get_missing_key_in_wide_node() {
    let mut pairs: Vec<(Vec<u8>, u64)> = Vec::new();
    for c in b'b'..=b'p' {
        pairs.push((vec![c], c as u64));
    }
    let fst = FST::load(build(&pairs));
    assert!(matches!(fst.get(b"z"), Err(FstError::NotFound)));
    assert_eq!(fst.get(b"h").unwrap(), b'h' as u64);
}

#[test]
fn get_on_empty_bytes_not_found() {
    let fst = FST::load(Vec::new());
    assert!(matches!(fst.get(b"a"), Err(FstError::NotFound)));
}

#[test]
fn get_below_smallest_label_of_wide_node() {
    let mut pairs: Vec<(Vec<u8>, u64)> = Vec::new();
    for c in b'b'..=b'p' {
        pairs.push((vec![c], c as u64));
    }
    let fst = FST::load(build(&pairs));
    assert!(matches!(fst.get(b"a"), Err(FstError::NotFound)));
    assert!(matches!(fst.get(&[0u8]), Err(FstError::NotFound)));
    assert_eq!(fst.get(b"b").unwrap(), b'b' as u64);
}

#[test]
fn get_extension_and_prefix_of_keys_not_found() {
    let fst = FST::load(build(&pairs_of(&[("ab", 1), ("ac", 2)])));
    assert!(matches!(fst.get(b"abc"), Err(FstError::NotFound)));
    assert!(matches!(fst.get(b"a"), Err(FstError::NotFound)));
    assert!(matches!(fst.get(b""), Err(FstError::NotFound)));
    assert_eq!(fst.get(b"ab").unwrap(), 1);
    assert_eq!(fst.get(b"ac").unwrap(), 2);
}

#[test]
fn get_prefix_keys_keep_their_values() {
    let fst = FST::load(build(&pairs_of(&[("a", 10), ("ab", 5), ("abc", 1)])));
    assert_eq!(fst.get(b"a").unwrap(), 10);
    assert_eq!(fst.get(b"ab").unwrap(), 5);
    assert_eq!(fst.get(b"abc").unwrap(), 1);
    assert!(matches!(fst.get(b"abcd"), Err(FstError::NotFound)));
}

#[test]
fn get_prefix_keys_with_rising_values() {
    let fst = FST::load(build(&pairs_of(&[("do", 3), ("dog", 7), ("dogs", 12)])));
    assert_eq!(fst.get(b"do").unwrap(), 3);
    assert_eq!(fst.get(b"dog").unwrap(), 7);
    assert_eq!(fst.get(b"dogs").unwrap(), 12);
}

#[test]
fn get_key_starting_with_zero_byte() {
    let fst = FST::load(build(&[(vec![0u8, b'a'], 1)]));
    assert_eq!(fst.get(&[0u8, b'a']).unwrap(), 1);
    assert!(matches!(fst.get(b"a"), Err(FstError::NotFound)));
    let fst2 = FST::load(build(&[(b"a".to_vec(), 4), (vec![b'a', 0u8, b'b'], 9)]));
    assert_eq!(fst2.get(b"a").unwrap(), 4);
    assert_eq!(fst2.get(&[b'a', 0u8, b'b']).unwrap(), 9);
    assert!(matches!(fst2.get(b"ab"), Err(FstError::NotFound)));
}

#[test]
fn iter_after_build_in_order() {
    let pairs = pairs_of(&[("ant", 4), ("bee", 9), ("bug", 2), ("cat", 11)]);
    let fst = FST::load(build(&pairs));
    let mut it = fst.iter();
    let mut seen: Vec<(Vec<u8>, u64)> = Vec::new();
    while let Some((k, v)) = it.next() {
        seen.push((k.as_ref().to_vec(), v));
        if seen.len() > pairs.len() {
            break;
        }
    }
    assert_eq!(seen, pairs);
}

#[test]
fn builder_only_appends() {
    let pairs = pairs_of(&[("alpha", 1), ("beta", 2), ("delta", 3), ("gamma", 4)]);
    let mut b = Builder::new(Vec::new());
    let mut snapshots: Vec<Vec<u8>> = Vec::new();
    for (k, v) in pairs.iter() {
        b.add(k, *v).unwrap();
        snapshots.push(b.bytes().clone());
    }
    b.finish().unwrap();
    let all = b.bytes().clone();
    for s in snapshots.iter() {
        assert!(all.starts_with(s));
    }
    assert!(all.len() > snapshots.last().unwrap().len());
}

#[test]
fn builder_reset_starts_over() {
    let pairs = pairs_of(&[("one", 1), ("two", 2)]);
    let mut b = Builder::new(Vec::new());
    for (k, v) in pairs.iter() {
        b.add(k, *v).unwrap();
    }
    b.finish().unwrap();
    let first = b.bytes().clone();
    b.reset();
    assert!(b.get().is_empty());
    for (k, v) in pairs.iter() {
        b.add(k, *v).unwrap();
    }
    b.finish().unwrap();
    assert_eq!(b.bytes(), &first);
}

#[test]
fn decoder_get_reads_from_the_end() {
    let bytes = build(&pairs_of(&[("cat", 5), ("dog", 10)]));
    let mut d = Decoder::new(&bytes);
    assert_eq!(d.get(b"dog").unwrap(), 10);
}

#[test]
fn encoder_write_vu64_reversed() {
    let mut e = Encoder::new(Vec::new());
    assert_eq!(e.write_vu64(300).unwrap(), 2);
    assert_eq!(e.get_ref(), &vec![0x02, 0xAC]);
}

#[test]
fn reader_read_vu64() {
    let data = vec![0x02u8, 0xAC];
    let mut r = ReverseReader::new(&data);
    let (v, n) = r.read_vu64();
    assert_eq!(v, 300);
    assert_eq!(n, 2);
    assert_eq!(r.get_position(), 0);
}

#[test]
fn encoder_write_u32_reversed() {
    let mut e = Encoder::new(Vec::new());
    assert_eq!(e.write_u32(0x01020304).unwrap(), 4);
    assert_eq!(e.get_ref(), &vec![4, 3, 2, 1]);
}

#[test]
fn reader_read_u32_be() {
    let data = vec![4u8, 3, 2, 1];
    let mut r = ReverseReader::new(&data);
    assert_eq!(r.read_u32_be().unwrap(), 0x01020304);
    assert!(r.read_u32_be().is_err());
}

#[test]
fn reader_read_u8_then_eof() {
    let data = vec![7u8, 9];
    let mut r = ReverseReader::new(&data);
    assert_eq!(r.read_u8().unwrap(), 9);
    assert_eq!(r.read_u8().unwrap(), 7);
    assert!(matches!(r.read_u8(), Err(FstError::Unexpected(_))));
}

#[test]
fn encoder_reset_empties() {
    let mut e = Encoder::new(vec![1, 2, 3]);
    e.write_u8(4).unwrap();
    e.reset();
    assert!(e.get_ref().is_empty());
}

#[test]
fn clear_empties_bytes() {
    let mut v: Vec<u8> = vec![1, 2, 3];
    v.reset();
    assert!(v.is_empty());
}

fn collect(fst: &FST, limit: usize) -> Vec<(Vec<u8>, u64)> {
    let mut it = fst.iter();
    let mut seen: Vec<(Vec<u8>, u64)> = Vec::new();
    while let Some((k, v)) = it.next() {
        seen.push((k.as_ref().to_vec(), v));
        if seen.len() > limit {
            break;
        }
    }
    seen
}

#[test]
fn iter_after_build_wide_nodes() {
    let mut pairs: Vec<(Vec<u8>, u64)> = Vec::new();
    for c1 in b'a'..=b'm' {
        for c2 in b'a'..=b'm' {
            pairs.push((vec![c1, c2, b'x'], (c1 as u64) * 1000 + c2 as u64));
        }
    }
    let fst = FST::load(build(&pairs));
    assert_eq!(collect(&fst, pairs.len()), pairs);
}

#[test]
fn iter_after_build_deep_keys() {
    let pairs = pairs_of(&[
        ("abcdefghijklmnop", 1),
        ("abcdefghijklmnoq", 2),
        ("abcdefghijz", 3),
        ("b", 4),
        ("bcdefghijklmnopqrstu", 5),
    ]);
    let fst = FST::load(build(&pairs));
    assert_eq!(collect(&fst, pairs.len()), pairs);
    for (k, v) in pairs.iter() {
        assert_eq!(fst.get(k).unwrap(), *v);
    }
}

#[test]
fn iter_single_key() {
    let pairs = pairs_of(&[("solo", 77)]);
    let fst = FST::load(build(&pairs));
    assert_eq!(collect(&fst, 1), pairs);
}

#[test]
fn copy_slice_copies_the_shorter_length() {
    let mut des = [0u8; 4];
    assert_eq!(copy_slice(&mut des, &[1, 2]), 2);
    assert_eq!(des, [1, 2, 0, 0]);
    let mut des2 = [9u8; 2];
    assert_eq!(copy_slice(&mut des2, &[5, 6, 7]), 2);
    assert_eq!(des2, [5, 6]);
}

#[test]
fn reader_read_fills_back_to_front() {
    let data = vec![1u8, 2, 3, 4, 5];
    let mut r = ReverseReader::new(&data);
    let mut buf = [0u8; 3];
    assert_eq!(r.read(&mut buf).unwrap(), 3);
    assert_eq!(buf, [5, 4, 3]);
    assert_eq!(r.get_position(), 2);
    let mut rest = [0u8; 2];
    assert_eq!(r.read(&mut rest).unwrap(), 2);
    assert_eq!(rest, [2, 1]);
    let mut more = [0u8; 1];
    assert!(matches!(r.read(&mut more), Err(FstError::Unexpected(_))));
}

#[test]
fn read_state_failure_leaves_fresh_arc() {
    let data = vec![0x1Fu8];
    let mut d = Decoder::new(&data);
    let mut s = State::new(9, 9);
    s.final_out = 7;
    s.target = 3;
    assert!(matches!(d.read_state(&mut s), Err(FstError::Unexpected(_))));
    assert_eq!(s.flag, 0x1F);
    assert_eq!(s._in, 0);
    assert_eq!(s.out, 0);
    assert_eq!(s.final_out, 0);
    assert_eq!(s.target, 0);
    assert_eq!(s.next_state, 0);
    let empty: Vec<u8> = Vec::new();
    let mut d2 = Decoder::new(&empty);
    let mut s2 = State::new(4, 4);
    assert!(d2.read_state(&mut s2).is_err());
    assert_eq!(s2.flag, 0);
    assert_eq!(s2.out, 0);
}

#[test]
fn error_from_string_is_unexpected() {
    let e: FstError = String::from("bad input").into();
    assert!(matches!(e, FstError::Unexpected(ref m) if m == "bad input"));
}

#[test]
fn get_after_build_prefix_chain_and_branches() {
    let pairs = pairs_of(&[("c9", 4), ("c911", 2), ("cat", 9), ("deep", 1), ("do", 30), ("dog", 20), ("dogs", 25)]);
    let fst = FST::load(build(&pairs));
    for (k, v) in pairs.iter() {
        assert_eq!(fst.get(k).unwrap(), *v);
    }
    assert!(matches!(fst.get(b"c91"), Err(FstError::NotFound)));
    assert!(matches!(fst.get(b"d"), Err(FstError::NotFound)));
    assert!(matches!(fst.get(b"dogsx"), Err(FstError::NotFound)));
}
