use greyhound::ring::{ModQ, Poly};
use greyhound::transcript::Fs;

#[test]
fn absorb_u64_appends_le_bytes() {
    let mut fs = Fs::new(b"t");
    let before = fs.bytes.len();
    fs.absorb_u64(0x0102030405060708);
    let tail = &fs.bytes[before..];
    assert_eq!(tail, &[0x08, 0x07, 0x06, 0x05, 0x04, 0x03, 0x02, 0x01]);
}

#[test]
fn new_prefixes_domain() {
    let fs = Fs::new(b"abc");
    let expect: Vec<u8> = b"greyhound/fs/abc".to_vec();
    assert_eq!(fs.bytes, expect);
}

#[test]
fn absorb_poly_encodes_coefficients() {
    let q = ModQ::new(229);
    let mut fs = Fs::new(b"p");
    let before = fs.bytes.len();
    let p = Poly::monomial(1, 5, &q);
    fs.absorb_poly(&p);
    let tail = &fs.bytes[before..];
    assert_eq!(tail.len(), 256);
    assert_eq!(&tail[0..4], &[0, 0, 0, 0]);
    assert_eq!(&tail[4..8], &[5, 0, 0, 0]);
}

#[test]
fn alphas_are_reduced_and_hashed() {
    let q = ModQ::new(229);
    let fs = Fs::new(b"x");
    let al = fs.alphas(8, &q);
    assert_eq!(al.len(), 8);
    for &a in &al {
        assert!(a < q.q);
    }
    // if the reader returned the transcript bytes unhashed, the first draw
    // would be the little-endian value of "greyhoun" reduced mod q
    let ident = u64::from_le_bytes(*b"greyhoun") % q.q as u64;
    assert_ne!(al[0] as u64, ident);
}

#[test]
fn challenges_have_sparse_small_coefficients() {
    let q = ModQ::new(229);
    let mut fs = Fs::new(b"c");
    fs.absorb_u64(99);
    let cs = fs.challenge_vec(2, &q, 32, 8);
    assert_eq!(cs.len(), 2);
    for c in &cs {
        let mut nonzero = 0;
        for &coef in &c.c {
            if coef != 0 {
                nonzero += 1;
                // magnitude 1 or 2, either sign
                let ok = coef == 1 || coef == 2 || coef == q.q - 1 || coef == q.q - 2;
                assert!(ok);
            }
        }
        assert_eq!(nonzero, 40);
    }
}

#[test]
fn same_transcript_same_challenges() {
    let q = ModQ::new(229);
    let mut fs1 = Fs::new(b"det");
    fs1.absorb_u64(7);
    let mut fs2 = Fs::new(b"det");
    fs2.absorb_u64(7);
    let c1 = fs1.challenge_vec(3, &q, 32, 8);
    let c2 = fs2.challenge_vec(3, &q, 32, 8);
    assert_eq!(c1, c2);
    let a1 = fs1.alphas(4, &q);
    let a2 = fs2.alphas(4, &q);
    assert_eq!(a1, a2);
}
