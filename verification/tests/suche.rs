use minigrep::{suche, suche_case_insensitive, suche_case_sensitive};
use minigrep::{Suchergebnis, Suchfehler, Suchkonfiguration};

fn tripel(ergebnisse: &[Suchergebnis]) -> Vec<(usize, usize, String)> {
    ergebnisse
        .iter()
        .map(|e| (e.zeilennummer, e.spaltennummer, e.zeileninhalt.clone()))
        .collect()
}

fn konfiguration(muster: &str, falten: bool) -> Suchkonfiguration {
    Suchkonfiguration {
        suchmuster: muster.to_string(),
        dateipfad: String::from("beispiel.txt"),
        gross_kleinschreibung_ignorieren: falten,
        kontextzeilen: 0,
        nur_anzahl: false,
    }
}

/// Leftmost, non-overlapping substring search with the standard library.
fn vergleichssuche(inhalt: &str, muster: &str) -> Vec<(usize, usize, String)> {
    let mut gefunden = Vec::new();
    for (index, zeile) in inhalt.split_terminator('\n').enumerate() {
        let mut ab = 0;
        while let Some(stelle) = zeile[ab..].find(muster) {
            gefunden.push((index + 1, ab + stelle + 1, zeile.to_string()));
            ab = ab + stelle + muster.len();
        }
    }
    gefunden
}

#[test]
fn genaue_suche_findet_nur_gleiche_schreibung() {
    let r = suche_case_sensitive("hello\nHello World\n", "hello").unwrap();
    assert_eq!(tripel(&r), vec![(1, 1, String::from("hello"))]);
}

#[test]
fn suche_ohne_grossschreibung_findet_beide_zeilen() {
    let r = suche_case_insensitive("hello\nHello World\n", "hello").unwrap();
    assert_eq!(
        tripel(&r),
        vec![(1, 1, String::from("hello")), (2, 1, String::from("Hello World"))]
    );
}

#[test]
fn ueberlappende_kandidaten_werden_uebersprungen() {
    let r = suche_case_sensitive("aaaa\n", "aa").unwrap();
    assert_eq!(
        tripel(&r),
        vec![(1, 1, String::from("aaaa")), (1, 3, String::from("aaaa"))]
    );
}

#[test]
fn drei_a_ergeben_einen_treffer() {
    let r = suche_case_sensitive("aaa", "aa").unwrap();
    assert_eq!(tripel(&r), vec![(1, 1, String::from("aaa"))]);
}

#[test]
fn kein_treffer_ist_kein_fehler() {
    let r = suche_case_sensitive("foo\nbar\nfoo\n", "xyz").unwrap();
    assert!(r.is_empty());
}

#[test]
fn muster_gleich_ganzer_zeile() {
    let r = suche_case_sensitive("abc\n", "abc").unwrap();
    assert_eq!(tripel(&r), vec![(1, 1, String::from("abc"))]);
}

#[test]
fn leere_datei_hat_keine_treffer() {
    assert!(suche_case_sensitive("", "a").unwrap().is_empty());
    assert!(suche_case_insensitive("", "a").unwrap().is_empty());
}

#[test]
fn letzte_zeile_ohne_zeilenende_zaehlt_mit() {
    let r = suche_case_sensitive("eins\nzwei", "zwei").unwrap();
    assert_eq!(tripel(&r), vec![(2, 1, String::from("zwei"))]);
}

#[test]
fn kein_leerer_schluss_nach_zeilenende() {
    let mit = suche_case_sensitive("x\n", "x").unwrap();
    let ohne = suche_case_sensitive("x", "x").unwrap();
    assert_eq!(tripel(&mit), tripel(&ohne));
}

#[test]
fn leere_zeilen_zaehlen_als_zeilen() {
    let r = suche_case_sensitive("\n\nab\n", "b").unwrap();
    assert_eq!(tripel(&r), vec![(3, 2, String::from("ab"))]);
}

#[test]
fn muster_laenger_als_zeile() {
    assert!(suche_case_sensitive("ab\ncd\n", "abcd").unwrap().is_empty());
}

#[test]
fn muster_reicht_nicht_ueber_zeilen() {
    assert!(suche_case_sensitive("ab\ncd\n", "b\nc").unwrap().is_empty());
}

#[test]
fn wagenruecklauf_gehoert_zur_zeile() {
    let r = suche_case_sensitive("a\r\nb\r\n", "\r").unwrap();
    assert_eq!(
        tripel(&r),
        vec![(1, 2, String::from("a\r")), (2, 2, String::from("b\r"))]
    );
}

#[test]
fn leeres_muster_ist_ein_fehler() {
    assert_eq!(
        suche_case_sensitive("abc\n", "").unwrap_err(),
        Suchfehler::LeeresSuchmuster
    );
    assert_eq!(
        suche_case_insensitive("abc\n", "").unwrap_err(),
        Suchfehler::LeeresSuchmuster
    );
    assert_eq!(
        suche("abc\n", &konfiguration("", true)).unwrap_err(),
        Suchfehler::LeeresSuchmuster
    );
    assert_eq!(
        suche("", &konfiguration("", false)).unwrap_err(),
        Suchfehler::LeeresSuchmuster
    );
}

#[test]
fn spalten_zaehlen_bytes() {
    let r = suche_case_insensitive("Äpfel und Birnen\n", "birnen").unwrap();
    assert_eq!(tripel(&r), vec![(1, 12, String::from("Äpfel und Birnen"))]);
}

#[test]
fn faltung_laesst_bytes_ausserhalb_von_ascii() {
    assert!(suche_case_insensitive("ÄPFEL\n", "äpfel").unwrap().is_empty());
    let r = suche_case_insensitive("ÄPFEL\n", "Äpfel").unwrap();
    assert_eq!(tripel(&r), vec![(1, 1, String::from("ÄPFEL"))]);
}

#[test]
fn muster_aus_mehreren_bytes_je_zeichen() {
    let r = suche_case_sensitive("日本語と日本\n", "日本").unwrap();
    assert_eq!(
        tripel(&r),
        vec![
            (1, 1, String::from("日本語と日本")),
            (1, 13, String::from("日本語と日本"))
        ]
    );
}

#[test]
fn faltung_im_muster_und_in_der_zeile() {
    let r = suche_case_insensitive("xABcAbC\n", "aBc").unwrap();
    assert_eq!(
        tripel(&r),
        vec![(1, 2, String::from("xABcAbC")), (1, 5, String::from("xABcAbC"))]
    );
}

#[test]
fn faltung_nur_fuer_buchstaben() {
    assert!(suche_case_insensitive("@[`{\n", "`").unwrap().len() == 1);
    assert!(suche_case_insensitive("@\n", "`").unwrap().is_empty());
    assert!(suche_case_insensitive("[\n", "{").unwrap().is_empty());
    assert_eq!(suche_case_insensitive("AZaz\n", "z").unwrap().len(), 2);
}

#[test]
fn suche_waehlt_den_vergleich_nach_konfiguration() {
    let inhalt = "hello\nHello World\n";
    let genau = suche(inhalt, &konfiguration("hello", false)).unwrap();
    let gefaltet = suche(inhalt, &konfiguration("hello", true)).unwrap();
    assert_eq!(tripel(&genau), vec![(1, 1, String::from("hello"))]);
    assert_eq!(
        tripel(&gefaltet),
        vec![(1, 1, String::from("hello")), (2, 1, String::from("Hello World"))]
    );
}

#[test]
fn jeder_treffer_zeigt_auf_das_muster() {
    let inhalt = "Der Bär tanzt.\nBÄR und bär und Bär\nkein Tier\nbÄr";
    for (muster, falten) in [("Bär", false), ("bär", true), ("är", false), ("R", true)] {
        let r = suche(inhalt, &konfiguration(muster, falten)).unwrap();
        assert!(!r.is_empty());
        for e in &r {
            let anfang = e.spaltennummer - 1;
            let stueck = &e.zeileninhalt.as_bytes()[anfang..anfang + muster.len()];
            if falten {
                assert!(stueck.eq_ignore_ascii_case(muster.as_bytes()));
            } else {
                assert_eq!(stueck, muster.as_bytes());
            }
            assert!(e.spaltennummer >= 1);
            assert!(e.spaltennummer + muster.len() <= e.zeileninhalt.len() + 1);
        }
    }
}

#[test]
fn treffer_einer_zeile_ueberlappen_nicht() {
    let r = suche_case_insensitive("abABabAB ab\nbaba\nABAB", "abab").unwrap();
    assert_eq!(
        r.iter().map(|e| (e.zeilennummer, e.spaltennummer)).collect::<Vec<_>>(),
        vec![(1, 1), (1, 5), (3, 1)]
    );
    for paar in r.windows(2) {
        let (a, b) = (&paar[0], &paar[1]);
        assert!(
            a.zeilennummer < b.zeilennummer
                || (a.zeilennummer == b.zeilennummer && b.spaltennummer - a.spaltennummer >= 4)
        );
    }
}

#[test]
fn genaue_suche_gleicht_der_vergleichssuche() {
    let inhalte = [
        "",
        "\n",
        "aaaa\n",
        "hello\nHello World\n",
        "abcabcabc\nbcabca\n\nabc",
        "Bär Bär\nbär\r\nBÄR",
        "xx\nxxx\nxxxx\nxxxxx",
    ];
    let muster = ["a", "aa", "abc", "bca", "Bär", "x", "xx", "\r", "hello", "zz"];
    for inhalt in inhalte {
        for m in muster {
            let r = suche_case_sensitive(inhalt, m).unwrap();
            assert_eq!(tripel(&r), vergleichssuche(inhalt, m));
        }
    }
}

#[test]
fn zweimal_suchen_gibt_dasselbe() {
    let inhalt = "eins Zwei\nzwei ZWEI zwei\n\ndrei";
    for falten in [false, true] {
        let k = konfiguration("zwei", falten);
        let a = suche(inhalt, &k).unwrap();
        let b = suche(inhalt, &k).unwrap();
        assert_eq!(tripel(&a), tripel(&b));
    }
}

#[test]
fn zeile_bleibt_in_urspruenglicher_schreibung() {
    let r = suche_case_insensitive("xx HeLLo yy\n", "hello").unwrap();
    assert_eq!(r.len(), 1);
    assert_eq!(r[0].zeileninhalt, "xx HeLLo yy");
    assert!(r[0].zeileninhalt[r[0].spaltennummer - 1..].starts_with("HeLLo"));
}

#[test]
fn fehler_in_worten() {
    assert_eq!(Suchfehler::LeeresSuchmuster.beschreibung(), "Das Suchmuster ist leer");
}
