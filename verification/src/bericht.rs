//! What a search has to show for itself: the number of occurrences alone, the
//! news that there is none, or each occurrence with its highlighted line, its
//! position and its context.

use vstd::prelude::*;
use vstd::string::*;
use vstd::utf8::*;
use crate::hervorhebung::{faerbe_suchstring, hervorgehoben};
use crate::kontext::{kontext, kontext_aus_zeilen, kontextsicht, Kontextzeile, Nachbarzeile};
use crate::suche::{
    alle_fundstellen, sicht, suche, Fundstelle, Suchergebnis, Suchfehler, Suchkonfiguration,
};
use crate::zeilen::{teile_in_zeilen, zeilen, zeilenbytes};

verus! {

/// One occurrence as it is shown.
#[derive(Debug, Clone)]
pub struct Trefferanzeige {
    /// The line, with every occurrence of the pattern highlighted.
    pub zeile: String,
    /// Number of the line, counted from 1.
    pub zeilennummer: usize,
    /// Column of the occurrence, counted in bytes from 1.
    pub spaltennummer: usize,
    /// The lines around the occurrence; `None` where no context is asked for.
    pub kontext: Option<Vec<Kontextzeile>>,
}

/// What is shown to the user after a search.
#[derive(Debug, Clone)]
pub enum Bericht {
    /// Only the number of occurrences was asked for.
    Anzahl(usize),
    /// The pattern does not occur.
    KeinTreffer,
    /// The occurrences, in the order of the file.
    Treffer(Vec<Trefferanzeige>),
}

/// An occurrence to show, as the contracts see it.
pub struct Anzeige {
    pub zeile: Seq<u8>,
    pub zeilennummer: int,
    pub spaltennummer: int,
    pub kontext: Option<Seq<Nachbarzeile>>,
}

/// A report as the contracts see it.
pub enum Berichtsicht {
    Anzahl(int),
    KeinTreffer,
    Treffer(Seq<Anzeige>),
}

impl View for Trefferanzeige {
    type V = Anzeige;

    open spec fn view(&self) -> Anzeige {
        Anzeige {
            zeile: encode_utf8(self.zeile@),
            zeilennummer: self.zeilennummer as int,
            spaltennummer: self.spaltennummer as int,
            kontext: match self.kontext {
                Some(v) => Some(kontextsicht(v@)),
                None => None,
            },
        }
    }
}

/// A list of occurrences to show, as the contracts see it.
pub open spec fn anzeigensicht(v: Seq<Trefferanzeige>) -> Seq<Anzeige> {
    Seq::new(v.len(), |i: int| v[i]@)
}

impl View for Bericht {
    type V = Berichtsicht;

    open spec fn view(&self) -> Berichtsicht {
        match *self {
            Bericht::Anzahl(n) => Berichtsicht::Anzahl(n as int),
            Bericht::KeinTreffer => Berichtsicht::KeinTreffer,
            Bericht::Treffer(v) => Berichtsicht::Treffer(anzeigensicht(v@)),
        }
    }
}

/// How the record `f` is shown: its line with the occurrences of `muster`
/// highlighted, its position, and, where the window `k` is not 0, the
/// context of its line in the file.
pub open spec fn anzeige_zu(
    inhalt: Seq<u8>,
    f: Fundstelle,
    muster: Seq<u8>,
    falten: bool,
    k: int,
) -> Anzeige {
    Anzeige {
        zeile: hervorgehoben(f.inhalt, muster, falten),
        zeilennummer: f.zeile,
        spaltennummer: f.spalte,
        kontext: if k > 0 {
            Some(kontext(zeilen(inhalt), f.zeile, k))
        } else {
            None
        },
    }
}

/// The report on the records `fs`: their number where only the number is
/// asked for; otherwise the news that there is none, or every record as it
/// is shown, in the order in which they stand.
pub open spec fn bericht(
    inhalt: Seq<u8>,
    fs: Seq<Fundstelle>,
    muster: Seq<u8>,
    falten: bool,
    k: int,
    nur_anzahl: bool,
) -> Berichtsicht {
    if nur_anzahl {
        Berichtsicht::Anzahl(fs.len() as int)
    } else if fs.len() == 0 {
        Berichtsicht::KeinTreffer
    } else {
        Berichtsicht::Treffer(Seq::new(fs.len(), |i: int| anzeige_zu(inhalt, fs[i], muster, falten, k)))
    }
}

/// The report on `ergebnisse`, the records of a search in `inhalt`, as
/// `konfiguration` asks for it.
pub fn erstelle_bericht(
    inhalt: &str,
    ergebnisse: &[Suchergebnis],
    konfiguration: &Suchkonfiguration,
) -> (b: Bericht)
    ensures
        b@ == bericht(
            inhalt.spec_bytes(),
            sicht(ergebnisse@),
            encode_utf8(konfiguration.suchmuster@),
            konfiguration.gross_kleinschreibung_ignorieren,
            konfiguration.kontextzeilen as int,
            konfiguration.nur_anzahl,
        ),
{
    let anzahl: usize = ergebnisse.len();
    if konfiguration.nur_anzahl {
        return Bericht::Anzahl(anzahl);
    }
    if anzahl == 0 {
        return Bericht::KeinTreffer;
    }
    let ghost ib = inhalt.spec_bytes();
    let ghost muster = encode_utf8(konfiguration.suchmuster@);
    let falten: bool = konfiguration.gross_kleinschreibung_ignorieren;
    let k: usize = konfiguration.kontextzeilen;
    let ghost soll = Seq::new(
        ergebnisse@.len(),
        |i: int| anzeige_zu(ib, sicht(ergebnisse@)[i], muster, falten, k as int),
    );
    let alle_zeilen: Vec<&str> = if k > 0 {
        teile_in_zeilen(inhalt)
    } else {
        Vec::new()
    };
    let mut anzeigen: Vec<Trefferanzeige> = Vec::new();
    let mut i: usize = 0;
    assert(anzeigensicht(anzeigen@) =~= soll.take(0));
    while i < anzahl
        invariant
            i <= anzahl,
            anzahl == ergebnisse@.len(),
            ib == inhalt.spec_bytes(),
            muster == encode_utf8(konfiguration.suchmuster@),
            falten == konfiguration.gross_kleinschreibung_ignorieren,
            k == konfiguration.kontextzeilen,
            k > 0 ==> zeilenbytes(alle_zeilen@) == zeilen(ib),
            soll == Seq::new(
                ergebnisse@.len(),
                |i: int| anzeige_zu(ib, sicht(ergebnisse@)[i], muster, falten, k as int),
            ),
            anzeigensicht(anzeigen@) == soll.take(i as int),
        decreases anzahl - i,
    {
        let e = &ergebnisse[i];
        let ghost davor = anzeigensicht(anzeigen@);
        let zeile = faerbe_suchstring(
            e.zeileninhalt.as_str(),
            konfiguration.suchmuster.as_str(),
            falten,
        );
        let umgebung: Option<Vec<Kontextzeile>> = if k > 0 {
            Some(kontext_aus_zeilen(&alle_zeilen, e.zeilennummer, k))
        } else {
            None
        };
        let eintrag = Trefferanzeige {
            zeile,
            zeilennummer: e.zeilennummer,
            spaltennummer: e.spaltennummer,
            kontext: umgebung,
        };
        assert(sicht(ergebnisse@)[i as int] == e@);
        assert(eintrag@ == soll[i as int]);
        anzeigen.push(eintrag);
        assert(anzeigensicht(anzeigen@) =~= davor.push(soll[i as int]));
        assert(soll.take(i + 1) =~= soll.take(i as int).push(soll[i as int]));
        i += 1;
    }
    assert(soll.take(anzahl as int) =~= soll);
    Bericht::Treffer(anzeigen)
}

/// Searches `inhalt` as `konfiguration` asks and reports on what was found:
/// an error for the empty pattern and for nothing else, and otherwise the
/// report on the records of the file.
pub fn durchsuche_und_berichte(inhalt: &str, konfiguration: &Suchkonfiguration) -> (r: Result<
    Bericht,
    Suchfehler,
>)
    ensures
        match r {
            Ok(b) => encode_utf8(konfiguration.suchmuster@).len() > 0 && b@ == bericht(
                inhalt.spec_bytes(),
                alle_fundstellen(
                    inhalt.spec_bytes(),
                    encode_utf8(konfiguration.suchmuster@),
                    konfiguration.gross_kleinschreibung_ignorieren,
                ),
                encode_utf8(konfiguration.suchmuster@),
                konfiguration.gross_kleinschreibung_ignorieren,
                konfiguration.kontextzeilen as int,
                konfiguration.nur_anzahl,
            ),
            Err(e) => encode_utf8(konfiguration.suchmuster@).len() == 0 && e
                == Suchfehler::LeeresSuchmuster,
        },
{
    match suche(inhalt, konfiguration) {
        Ok(ergebnisse) => Ok(erstelle_bericht(inhalt, ergebnisse.as_slice(), konfiguration)),
        Err(e) => Err(e),
    }
}

} // verus!
