use byteorder::BigEndian;
use byteorder::WriteBytesExt;
use furze::decoder::Decoder;
use furze::encoder::Encoder;
use furze::Builder;
use furze::Bytes;

#[test]
fn test_add() {
    let mut b = Builder::new(Bytes::new());
    let _ = b.add("cat".as_bytes(), 5);
    let _ = b.add("dog".as_bytes(), 10);
    let _ = b.add("deep".as_bytes(), 15);
    let _ = b.add("logs".as_bytes(), 2);
    let _ = b.finish();

    let mut d = Decoder::new(b.get());
    let res = d.get("logs".as_bytes());
    match res {
        Ok(v) => {
            println!("out:{}", v);
        }
        Err(e) => {
            println!("e:{:?}", e);
        }
    }

    b.reset();
    assert!(b.get().is_empty());
}

#[test]
fn decoder_test_encoder() {}

#[test]
fn encoder_test_encoder() {
    let v = vec![];
    let wtr = Encoder::new(v);
    println!("{:?}", wtr.get_ref().len());
    assert_eq!(wtr.get_ref().len(), 0);
}

#[test]
fn test_slice() {
    let mut a: [u8; 10] = [0; 10];
    let mut buffer = &mut a[..4];
    let _ = buffer.write_u32::<BigEndian>(6);
    println!("{:?}", a);
    assert_eq!(&a[..4], &[0, 0, 0, 6]);
}
