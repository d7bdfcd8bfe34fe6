use minigrep::treffer::{falte, finde_genau, finde_vorkommen, klein_byte};

#[test]
fn klein_byte_trifft_nur_grossbuchstaben() {
    assert_eq!(klein_byte(b'A'), b'a');
    assert_eq!(klein_byte(b'Z'), b'z');
    assert_eq!(klein_byte(b'M'), b'm');
    assert_eq!(klein_byte(b'a'), b'a');
    assert_eq!(klein_byte(b'@'), b'@');
    assert_eq!(klein_byte(b'['), b'[');
    assert_eq!(klein_byte(0), 0);
    assert_eq!(klein_byte(0xc4), 0xc4);
    assert_eq!(klein_byte(0xff), 0xff);
}

#[test]
fn klein_byte_gleicht_der_standardbibliothek() {
    for b in 0..=255u8 {
        assert_eq!(klein_byte(b), b.to_ascii_lowercase());
    }
}

#[test]
fn falte_behaelt_die_laenge() {
    assert_eq!(falte(b"Hello, WORLD! \xc3\x84"), b"hello, world! \xc3\x84".to_vec());
    assert_eq!(falte(b""), Vec::<u8>::new());
}

#[test]
fn genaue_vorkommen() {
    assert_eq!(finde_genau(b"aaaa", b"aa"), vec![0, 2]);
    assert_eq!(finde_genau(b"aaaaa", b"aa"), vec![0, 2]);
    assert_eq!(finde_genau(b"abcabc", b"bc"), vec![1, 4]);
    assert_eq!(finde_genau(b"abc", b"abc"), vec![0]);
    assert_eq!(finde_genau(b"abc", b"abcd"), Vec::<usize>::new());
    assert_eq!(finde_genau(b"", b"a"), Vec::<usize>::new());
    assert_eq!(finde_genau(b"abc", b"x"), Vec::<usize>::new());
    assert_eq!(finde_genau(b"abab", b"bab"), vec![1]);
    assert_eq!(finde_genau(b"aab", b"ab"), vec![1]);
}

#[test]
fn leeres_muster_kommt_nirgends_vor() {
    assert_eq!(finde_genau(b"abc", b""), Vec::<usize>::new());
    assert_eq!(finde_genau(b"", b""), Vec::<usize>::new());
    assert_eq!(finde_vorkommen(b"abc", b"", true), Vec::<usize>::new());
    assert_eq!(finde_vorkommen(b"abc", b"", false), Vec::<usize>::new());
}

#[test]
fn vorkommen_mit_und_ohne_faltung() {
    assert_eq!(finde_vorkommen(b"Hello hello HELLO", b"hello", false), vec![6]);
    assert_eq!(finde_vorkommen(b"Hello hello HELLO", b"hello", true), vec![0, 6, 12]);
    assert_eq!(finde_vorkommen(b"Hello hello HELLO", b"HeLLo", true), vec![0, 6, 12]);
    assert_eq!(finde_vorkommen(b"Hello hello HELLO", b"HeLLo", false), Vec::<usize>::new());
}

#[test]
fn vorkommen_in_beliebigen_bytes() {
    assert_eq!(finde_vorkommen(b"\xff\xfeA\xff\xfea", b"\xfea", true), vec![1, 4]);
    assert_eq!(finde_vorkommen(b"\xff\xfeA\xff\xfea", b"\xfea", false), vec![4]);
    assert_eq!(finde_vorkommen(b"\xe4\xc4", b"\xe4", true), vec![0]);
}
