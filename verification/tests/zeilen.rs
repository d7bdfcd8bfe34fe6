use minigrep::zeilen::{finde_zeilenende, teile_in_zeilen, teile_zeile};

#[test]
fn zeilenende_am_ersten_lf() {
    assert_eq!(finde_zeilenende(b"ab\ncd\n"), 2);
    assert_eq!(finde_zeilenende(b"\nab"), 0);
    assert_eq!(finde_zeilenende(b"abc"), 3);
    assert_eq!(finde_zeilenende(b""), 0);
    assert_eq!(finde_zeilenende(b"a\r\n"), 2);
}

#[test]
fn erste_zeile_wird_abgeteilt() {
    assert_eq!(teile_zeile("ab\ncd\n"), ("ab", "cd\n"));
    assert_eq!(teile_zeile("ab\n"), ("ab", ""));
    assert_eq!(teile_zeile("ab"), ("ab", ""));
    assert_eq!(teile_zeile("\n\n"), ("", "\n"));
    assert_eq!(teile_zeile(""), ("", ""));
    assert_eq!(teile_zeile("grün\nblau"), ("grün", "blau"));
}

#[test]
fn zeilen_ohne_leeren_schluss() {
    assert_eq!(teile_in_zeilen("a\nb\n"), vec!["a", "b"]);
    assert_eq!(teile_in_zeilen("a\nb"), vec!["a", "b"]);
    assert_eq!(teile_in_zeilen("a\n\nb"), vec!["a", "", "b"]);
    assert_eq!(teile_in_zeilen("\n"), vec![""]);
    assert_eq!(teile_in_zeilen("\n\n"), vec!["", ""]);
    assert_eq!(teile_in_zeilen(""), Vec::<&str>::new());
    assert_eq!(teile_in_zeilen("a\r\nb\r"), vec!["a\r", "b\r"]);
    assert_eq!(teile_in_zeilen("ä\nö\nü"), vec!["ä", "ö", "ü"]);
}

#[test]
fn zeilen_wie_beim_trennen_am_zeilenende() {
    for inhalt in ["", "\n", "x", "x\n", "x\ny", "\nx\n\ny\n\n", "a\r\nb"] {
        let erwartet: Vec<&str> = inhalt.split_terminator('\n').collect();
        assert_eq!(teile_in_zeilen(inhalt), erwartet);
    }
}
