use minigrep::kontext::{kontext_aus_zeilen, kontext_der_zeile, Kontextzeile};

fn paare(zeilen: &[Kontextzeile]) -> Vec<(usize, String)> {
    zeilen.iter().map(|z| (z.zeilennummer, z.zeileninhalt.clone())).collect()
}

fn erwartet(paare: &[(usize, &str)]) -> Vec<(usize, String)> {
    paare.iter().map(|&(n, z)| (n, z.to_string())).collect()
}

#[test]
fn kontext_ohne_die_zeile_selbst() {
    let k = kontext_der_zeile("A\nB\nC\n", 2, 1);
    assert_eq!(paare(&k), erwartet(&[(1, "A"), (3, "C")]));
}

#[test]
fn kontext_am_anfang_und_am_ende() {
    let inhalt = "1\n2\n3\n4\n5\n";
    assert_eq!(paare(&kontext_der_zeile(inhalt, 1, 2)), erwartet(&[(2, "2"), (3, "3")]));
    assert_eq!(paare(&kontext_der_zeile(inhalt, 5, 2)), erwartet(&[(3, "3"), (4, "4")]));
    assert_eq!(
        paare(&kontext_der_zeile(inhalt, 3, 1)),
        erwartet(&[(2, "2"), (4, "4")])
    );
    assert_eq!(
        paare(&kontext_der_zeile(inhalt, 2, 2)),
        erwartet(&[(1, "1"), (3, "3"), (4, "4")])
    );
}

#[test]
fn fenster_groesser_als_die_datei() {
    let inhalt = "a\nb\nc";
    assert_eq!(paare(&kontext_der_zeile(inhalt, 2, 100)), erwartet(&[(1, "a"), (3, "c")]));
    assert_eq!(
        paare(&kontext_der_zeile(inhalt, 2, usize::MAX)),
        erwartet(&[(1, "a"), (3, "c")])
    );
    assert_eq!(
        paare(&kontext_der_zeile(inhalt, 3, usize::MAX)),
        erwartet(&[(1, "a"), (2, "b")])
    );
}

#[test]
fn fenster_null_zeigt_nichts() {
    assert!(kontext_der_zeile("a\nb\nc", 2, 0).is_empty());
}

#[test]
fn einzige_zeile_hat_keinen_kontext() {
    assert!(kontext_der_zeile("a\n", 1, 3).is_empty());
    assert!(kontext_der_zeile("", 1, 3).is_empty());
}

#[test]
fn zeilennummer_hinter_dem_dateiende() {
    let inhalt = "a\nb\nc";
    assert_eq!(paare(&kontext_der_zeile(inhalt, 4, 1)), erwartet(&[(3, "c")]));
    assert_eq!(paare(&kontext_der_zeile(inhalt, 5, 3)), erwartet(&[(2, "b"), (3, "c")]));
    assert!(kontext_der_zeile(inhalt, 5, 1).is_empty());
    assert!(kontext_der_zeile(inhalt, usize::MAX, 1).is_empty());
    assert_eq!(
        paare(&kontext_der_zeile(inhalt, usize::MAX, usize::MAX)),
        erwartet(&[(1, "a"), (2, "b"), (3, "c")])
    );
}

#[test]
fn zeilennummer_null_liegt_vor_der_datei() {
    let inhalt = "a\nb\nc";
    assert_eq!(paare(&kontext_der_zeile(inhalt, 0, 2)), erwartet(&[(1, "a"), (2, "b")]));
    assert!(kontext_der_zeile(inhalt, 0, 0).is_empty());
}

#[test]
fn kontext_aus_fertigen_zeilen() {
    let zeilen = vec!["eins", "zwei", "drei", "vier"];
    assert_eq!(
        paare(&kontext_aus_zeilen(&zeilen, 3, 1)),
        erwartet(&[(2, "zwei"), (4, "vier")])
    );
    assert!(kontext_aus_zeilen(&Vec::new(), 1, 1).is_empty());
}
