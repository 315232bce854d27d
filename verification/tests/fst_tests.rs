use furze::error::FstError;
use furze::Builder;
use furze::Bytes;
use furze::FST;

#[test]
fn test_get_error() {
    let e1 = FstError::Unexpected("xxxx".to_string());
    let e2 = FstError::EncodeFail("a".to_string());
    let e3 = FstError::IoWriteFail(std::io::Error::from(std::io::ErrorKind::AddrInUse));
    println!("{:?}", e1);
    println!("{:?}", e2);
    println!("{:?}", e3);
    assert!(matches!(e1, FstError::Unexpected(ref m) if m == "xxxx"));
    assert!(matches!(e3, FstError::IoWriteFail(_)));
}

#[test]
fn test_add_to_fst2() {
    let mut builder = Builder::new(Bytes::with_capacity(4 * 1024));
    builder.add("aa".as_bytes(), 0).unwrap();
    builder.add("bb".as_bytes(), 1).unwrap();
    builder.add("c1".as_bytes(), 1).unwrap();
    builder.add("c2".as_bytes(), 2).unwrap();
    builder.add("c3".as_bytes(), 3).unwrap();
    builder.add("c4".as_bytes(), 4).unwrap();
    builder.add("c5".as_bytes(), 5).unwrap();
    builder.add("c6".as_bytes(), 6).unwrap();
    builder.add("c8".as_bytes(), 8).unwrap();
    builder.add("c9".as_bytes(), 987711587).unwrap();
    builder.add("c911".as_bytes(), 1087711587).unwrap();
    builder.add("c922".as_bytes(), 1187711587).unwrap();
    builder.add("c933".as_bytes(), 1287711587).unwrap();
    builder.add("c944".as_bytes(), 1387711587).unwrap();
    builder.add("z955".as_bytes(), 1487711587).unwrap();
    builder.finish().unwrap();
    println!("{:?},len:{}", builder.get(), builder.get().len());
    let fst = FST::load(builder.bytes().clone());
    let res = fst.get("c9".as_bytes());
    match res {
        Ok(v) => println!("c9 res:{}", v),
        Err(ref e) => println!("c9 {:?}", e),
    }
    let res2 = fst.get("cf5687".as_bytes());
    match res2 {
        Ok(v) => println!("cf5687 res:{}", v),
        Err(ref e) => println!("cf5687 {:?}", e),
    }
    assert_eq!(res.unwrap(), 987711587);
    assert!(res2.is_err());
}

#[test]
fn lib_test_iter() {
    let mut b = Builder::new(vec![]);
    let _ = b.add("cat".as_bytes(), 5);
    let _ = b.add("deep".as_bytes(), 10);
    let _ = b.add("do".as_bytes(), 15);
    let _ = b.add("dog".as_bytes(), 2);
    let _ = b.add("dogs".as_bytes(), 8);
    let _ = b.finish();

    let fst = FST::load(b.get().to_vec());
    println!("{:?}", b.get());

    let mut f = fst.iter();
    let mut i = 0;
    let mut seen: Vec<(Vec<u8>, u64)> = Vec::new();
    while let Some((k, v)) = f.next() {
        println!("k:{},v:{}", String::from_utf8_lossy(k.as_ref()), v);
        seen.push((k.as_ref().to_vec(), v));
        i += 1;
        if i > 10 {
            break;
        }
    }
    let expected: Vec<(Vec<u8>, u64)> = vec![
        (b"cat".to_vec(), 5),
        (b"deep".to_vec(), 10),
        (b"do".to_vec(), 15),
        (b"dog".to_vec(), 2),
        (b"dogs".to_vec(), 8),
    ];
    assert_eq!(seen, expected);
}

#[test]
fn iter_prefix_key_over_wide_node() {
    let mut b = Builder::new(vec![]);
    let mut pairs: Vec<(Vec<u8>, u64)> = vec![(b"a".to_vec(), 1)];
    for c in b'b'..=b'p' {
        pairs.push((vec![b'a', c], c as u64));
    }
    pairs.push((b"b".to_vec(), 7));
    for (k, v) in pairs.iter() {
        assert!(b.add(k, *v).is_ok());
    }
    assert!(b.finish().is_ok());
    let fst = FST::load(b.get().to_vec());
    let mut f = fst.iter();
    let mut seen: Vec<(Vec<u8>, u64)> = Vec::new();
    while let Some((k, v)) = f.next() {
        seen.push((k.as_ref().to_vec(), v));
        if seen.len() > pairs.len() {
            break;
        }
    }
    assert_eq!(seen, pairs);
    for (k, v) in pairs.iter() {
        assert_eq!(fst.get(k).unwrap(), *v);
    }
}

#[test]
fn iter_nested_prefix_keys() {
    let mut b = Builder::new(vec![]);
    let pairs: Vec<(Vec<u8>, u64)> =
        vec![(b"a".to_vec(), 10), (b"ab".to_vec(), 5), (b"abc".to_vec(), 1), (b"b".to_vec(), 2)];
    for (k, v) in pairs.iter() {
        assert!(b.add(k, *v).is_ok());
    }
    assert!(b.finish().is_ok());
    let fst = FST::load(b.get().to_vec());
    let mut f = fst.iter();
    let mut seen: Vec<(Vec<u8>, u64)> = Vec::new();
    while let Some((k, v)) = f.next() {
        seen.push((k.as_ref().to_vec(), v));
        if seen.len() > pairs.len() {
            break;
        }
    }
    assert_eq!(seen, pairs);
}

#[test]
fn error_from_message() {
    match FstError::from("bad input") {
        FstError::Unexpected(m) => assert_eq!(m, "bad input"),
        _ => panic!("wrong variant"),
    }
}

#[test]
fn error_from_message_and_io_error() {
    let io = std::io::Error::new(std::io::ErrorKind::Other, "disk");
    match FstError::from(("write", io)) {
        FstError::UnexpectIO(m, err) => {
            assert_eq!(m, "write");
            assert_eq!(err.to_string(), "disk");
        }
        _ => panic!("wrong variant"),
    }
}
