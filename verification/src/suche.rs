//! The line scanner: every occurrence of a pattern in the contents of a
//! file, as records of line number, column and line.

use vstd::prelude::*;
use vstd::string::*;
use vstd::utf8::*;
use crate::grenzen::bytelaenge;
use crate::treffer::{
    als_ganzzahlen, falte, finde_genau, gefaltet, ist_trefferfolge_ab,
    lemma_ohne_faltung_ist_teilstringsuche, lemma_vorkommen_abstand, lemma_vorkommen_passt, passt,
    vorkommen, vorkommen_ab,
};
use crate::zeilen::{lemma_zeilenende_ab, teile_zeile, zeilen};

verus! {

/// One occurrence of the pattern.
#[derive(Debug, Clone)]
pub struct Suchergebnis {
    /// Number of the line, counted from 1.
    pub zeilennummer: usize,
    /// Column of the first byte of the occurrence, counted in bytes from 1.
    pub spaltennummer: usize,
    /// The whole line as it stands in the file.
    pub zeileninhalt: String,
}

/// What a search is asked to do.
pub struct Suchkonfiguration {
    /// The literal text to look for.
    pub suchmuster: String,
    /// The file whose contents are searched.
    pub dateipfad: String,
    /// Compare without regard to ASCII case.
    pub gross_kleinschreibung_ignorieren: bool,
    /// How many lines to show before and after each occurrence.
    pub kontextzeilen: usize,
    /// Report only how many occurrences there are.
    pub nur_anzahl: bool,
}

/// Why a search was not carried out.
#[derive(Debug, Clone, Copy, PartialEq, Eq, Structural)]
pub enum Suchfehler {
    /// The pattern is empty.
    LeeresSuchmuster,
}

impl Suchfehler {
    /// The error in words, for the user.
    pub fn beschreibung(&self) -> (r: String)
        ensures
            r@ == "Das Suchmuster ist leer"@,
    {
        match self {
            Suchfehler::LeeresSuchmuster => "Das Suchmuster ist leer".to_owned(),
        }
    }
}

/// A record as the contracts see it: line number, column, and the bytes of
/// the line.
pub struct Fundstelle {
    pub zeile: int,
    pub spalte: int,
    pub inhalt: Seq<u8>,
}

impl View for Suchergebnis {
    type V = Fundstelle;

    open spec fn view(&self) -> Fundstelle {
        Fundstelle {
            zeile: self.zeilennummer as int,
            spalte: self.spaltennummer as int,
            inhalt: encode_utf8(self.zeileninhalt@),
        }
    }
}

/// A list of records as the contracts see it.
pub open spec fn sicht(v: Seq<Suchergebnis>) -> Seq<Fundstelle> {
    Seq::new(v.len(), |i: int| v[i]@)
}

/// The records of line number `n` for the offsets `offs`: one for each
/// offset, in their order, each with the line's number, the offset plus one
/// as its column, and the line itself.
pub open spec fn fundstellen_zu(n: int, zeile: Seq<u8>, offs: Seq<int>) -> Seq<Fundstelle> {
    Seq::new(offs.len(), |k: int| Fundstelle { zeile: n, spalte: offs[k] + 1, inhalt: zeile })
}

/// The records of one line: those for the occurrences of the pattern in it.
pub open spec fn fundstellen_der_zeile(
    n: int,
    zeile: Seq<u8>,
    muster: Seq<u8>,
    falten: bool,
) -> Seq<Fundstelle> {
    fundstellen_zu(n, zeile, vorkommen(zeile, muster, falten))
}

/// The records of the lines `zs`, numbered from `n`, for the offsets that
/// `offs` gives for each of them.
pub open spec fn fundstellen_aus(zs: Seq<Seq<u8>>, offs: Seq<Seq<int>>, n: int) -> Seq<Fundstelle>
    decreases zs.len(),
{
    if zs.len() == 0 {
        Seq::empty()
    } else {
        fundstellen_zu(n, zs[0], offs[0]) + fundstellen_aus(zs.drop_first(), offs.drop_first(), n + 1)
    }
}

/// The records of the lines `zs`, of which the first has the number `n`.
pub open spec fn fundstellen_ab(
    zs: Seq<Seq<u8>>,
    muster: Seq<u8>,
    falten: bool,
    n: int,
) -> Seq<Fundstelle>
    decreases zs.len(),
{
    if zs.len() == 0 {
        Seq::empty()
    } else {
        fundstellen_der_zeile(n, zs[0], muster, falten) + fundstellen_ab(
            zs.drop_first(),
            muster,
            falten,
            n + 1,
        )
    }
}

/// The records of a whole file: those of its lines, in the order of the
/// lines, numbered from 1.
pub open spec fn alle_fundstellen(inhalt: Seq<u8>, muster: Seq<u8>, falten: bool) -> Seq<Fundstelle> {
    fundstellen_ab(zeilen(inhalt), muster, falten, 1)
}

/// What a search returns for given contents and pattern: an error for the
/// empty pattern and for nothing else, and otherwise exactly the records of
/// the file.
pub open spec fn ist_suchergebnis(
    inhalt: Seq<u8>,
    muster: Seq<u8>,
    falten: bool,
    r: Result<Vec<Suchergebnis>, Suchfehler>,
) -> bool {
    match r {
        Ok(v) => muster.len() > 0 && sicht(v@) == alle_fundstellen(inhalt, muster, falten),
        Err(e) => muster.len() == 0 && e == Suchfehler::LeeresSuchmuster,
    }
}

/// The offsets in one line of a pattern that is already in the form in which
/// it is compared.
fn finde_in_zeile(zeile: &[u8], muster_vgl: &[u8], falten: bool) -> (r: Vec<usize>)
    ensures
        als_ganzzahlen(r@) == vorkommen_ab(gefaltet(zeile@, falten), muster_vgl@, 0),
{
    if falten {
        let z = falte(zeile);
        finde_genau(z.as_slice(), muster_vgl)
    } else {
        finde_genau(zeile, muster_vgl)
    }
}

/// Appends the records of one line to `ergebnisse`.
fn haenge_fundstellen_an(
    ergebnisse: &mut Vec<Suchergebnis>,
    zeile: &str,
    n: usize,
    offsets: &Vec<usize>,
    Ghost(muster): Ghost<Seq<u8>>,
    Ghost(falten): Ghost<bool>,
)
    requires
        muster.len() > 0,
        als_ganzzahlen(offsets@) == vorkommen(zeile.spec_bytes(), muster, falten),
    ensures
        sicht(final(ergebnisse)@) == sicht(old(ergebnisse)@) + fundstellen_der_zeile(
            n as int,
            zeile.spec_bytes(),
            muster,
            falten,
        ),
{
    let ghost vorher = sicht(ergebnisse@);
    let ghost soll = fundstellen_der_zeile(n as int, zeile.spec_bytes(), muster, falten);
    let ghost offs = vorkommen(zeile.spec_bytes(), muster, falten);
    let laenge: usize = bytelaenge(zeile);
    let mut k: usize = 0;
    while k < offsets.len()
        invariant
            k <= offsets@.len(),
            laenge == zeile.spec_bytes().len(),
            muster.len() > 0,
            offs == vorkommen(zeile.spec_bytes(), muster, falten),
            als_ganzzahlen(offsets@) == offs,
            soll == fundstellen_der_zeile(n as int, zeile.spec_bytes(), muster, falten),
            sicht(ergebnisse@) == vorher + soll.take(k as int),
        decreases offsets@.len() - k,
    {
        let o: usize = offsets[k];
        proof {
            assert(als_ganzzahlen(offsets@)[k as int] == o as int);
            assert(offs[k as int] == o as int);
            lemma_vorkommen_passt(zeile.spec_bytes(), muster, falten, k as int);
        }
        let ghost davor = sicht(ergebnisse@);
        let eintrag = Suchergebnis {
            zeilennummer: n,
            spaltennummer: o + 1,
            zeileninhalt: zeile.to_owned(),
        };
        assert(eintrag@ == soll[k as int]);
        ergebnisse.push(eintrag);
        assert(sicht(ergebnisse@) =~= davor.push(soll[k as int]));
        assert(soll.take(k + 1) =~= soll.take(k as int).push(soll[k as int]));
        k += 1;
    }
    assert(soll.take(k as int) =~= soll);
}

/// Scans the lines of `inhalt` for a pattern that is not empty.
fn durchsuche(inhalt: &str, suchmuster: &str, falten: bool) -> (v: Vec<Suchergebnis>)
    requires
        suchmuster.spec_bytes().len() > 0,
    ensures
        sicht(v@) == alle_fundstellen(inhalt.spec_bytes(), suchmuster.spec_bytes(), falten),
{
    let ghost muster = suchmuster.spec_bytes();
    let ghost alle = alle_fundstellen(inhalt.spec_bytes(), muster, falten);
    let mb = suchmuster.as_bytes();
    let gefaltetes: Vec<u8> = if falten {
        falte(mb)
    } else {
        Vec::new()
    };
    let muster_vgl: &[u8] = if falten {
        gefaltetes.as_slice()
    } else {
        mb
    };
    let mut ergebnisse: Vec<Suchergebnis> = Vec::new();
    let mut rest: &str = inhalt;
    let mut n: usize = 0;
    let gesamt: usize = bytelaenge(inhalt);
    assert(sicht(ergebnisse@) =~= Seq::<Fundstelle>::empty());
    while bytelaenge(rest) > 0
        invariant
            muster == suchmuster.spec_bytes(),
            muster.len() > 0,
            muster_vgl@ == gefaltet(muster, falten),
            n + rest.spec_bytes().len() <= gesamt,
            alle == sicht(ergebnisse@) + fundstellen_ab(
                zeilen(rest.spec_bytes()),
                muster,
                falten,
                n + 1,
            ),
        decreases rest.spec_bytes().len(),
    {
        let ghost rb = rest.spec_bytes();
        let ghost davor = sicht(ergebnisse@);
        let (zeile, nach) = teile_zeile(rest);
        proof {
            lemma_zeilenende_ab(rb, 0);
            assert(zeilen(rb).drop_first() =~= zeilen(nach.spec_bytes()));
            assert(zeilen(rb)[0] == zeile.spec_bytes());
        }
        n += 1;
        let offsets = finde_in_zeile(zeile.as_bytes(), muster_vgl, falten);
        haenge_fundstellen_an(&mut ergebnisse, zeile, n, &offsets, Ghost(muster), Ghost(falten));
        proof {
            let neu = fundstellen_der_zeile(n as int, zeile.spec_bytes(), muster, falten);
            let folge = fundstellen_ab(zeilen(nach.spec_bytes()), muster, falten, n + 1);
            assert(alle == davor + (neu + folge));
            assert(davor + (neu + folge) =~= (davor + neu) + folge);
        }
        rest = nach;
    }
    proof {
        assert(zeilen(rest.spec_bytes()) =~= Seq::<Seq<u8>>::empty());
        assert(alle =~= sicht(ergebnisse@));
    }
    ergebnisse
}

/// Searches `inhalt` for `suchmuster`, comparing byte for byte.
pub fn suche_case_sensitive(inhalt: &str, suchmuster: &str) -> (r: Result<
    Vec<Suchergebnis>,
    Suchfehler,
>)
    ensures
        ist_suchergebnis(inhalt.spec_bytes(), suchmuster.spec_bytes(), false, r),
{
    if bytelaenge(suchmuster) == 0 {
        Err(Suchfehler::LeeresSuchmuster)
    } else {
        Ok(durchsuche(inhalt, suchmuster, false))
    }
}

/// Searches `inhalt` for `suchmuster` without regard to ASCII case.
pub fn suche_case_insensitive(inhalt: &str, suchmuster: &str) -> (r: Result<
    Vec<Suchergebnis>,
    Suchfehler,
>)
    ensures
        ist_suchergebnis(inhalt.spec_bytes(), suchmuster.spec_bytes(), true, r),
{
    if bytelaenge(suchmuster) == 0 {
        Err(Suchfehler::LeeresSuchmuster)
    } else {
        Ok(durchsuche(inhalt, suchmuster, true))
    }
}

/// Searches the contents of the configured file for the configured pattern
/// under the configured comparison.
pub fn suche(inhalt: &str, konfiguration: &Suchkonfiguration) -> (r: Result<
    Vec<Suchergebnis>,
    Suchfehler,
>)
    ensures
        ist_suchergebnis(
            inhalt.spec_bytes(),
            encode_utf8(konfiguration.suchmuster@),
            konfiguration.gross_kleinschreibung_ignorieren,
            r,
        ),
{
    if konfiguration.gross_kleinschreibung_ignorieren {
        suche_case_insensitive(inhalt, konfiguration.suchmuster.as_str())
    } else {
        suche_case_sensitive(inhalt, konfiguration.suchmuster.as_str())
    }
}

proof fn lemma_fundstelle_ab(zs: Seq<Seq<u8>>, muster: Seq<u8>, falten: bool, n: int, i: int)
    requires
        muster.len() > 0,
        0 <= i < fundstellen_ab(zs, muster, falten, n).len(),
    ensures
        ({
            let r = fundstellen_ab(zs, muster, falten, n)[i];
            &&& n <= r.zeile < n + zs.len()
            &&& r.inhalt == zs[r.zeile - n]
            &&& passt(r.inhalt, muster, falten, r.spalte - 1)
        }),
    decreases zs.len(),
{
    let vorn = fundstellen_der_zeile(n, zs[0], muster, falten);
    if i < vorn.len() {
        lemma_vorkommen_passt(zs[0], muster, falten, i);
    } else {
        lemma_fundstelle_ab(zs.drop_first(), muster, falten, n + 1, i - vorn.len());
    }
}

proof fn lemma_geordnet_ab(zs: Seq<Seq<u8>>, muster: Seq<u8>, falten: bool, n: int, i: int, j: int)
    requires
        muster.len() > 0,
        0 <= i < j < fundstellen_ab(zs, muster, falten, n).len(),
    ensures
        ({
            let a = fundstellen_ab(zs, muster, falten, n)[i];
            let b = fundstellen_ab(zs, muster, falten, n)[j];
            a.zeile < b.zeile || (a.zeile == b.zeile && a.spalte + muster.len() <= b.spalte)
        }),
    decreases zs.len(),
{
    let vorn = fundstellen_der_zeile(n, zs[0], muster, falten);
    if j < vorn.len() {
        lemma_vorkommen_abstand(zs[0], muster, falten, i, j);
    } else if i < vorn.len() {
        lemma_fundstelle_ab(zs.drop_first(), muster, falten, n + 1, j - vorn.len());
    } else {
        lemma_geordnet_ab(zs.drop_first(), muster, falten, n + 1, i - vorn.len(), j - vorn.len());
    }
}

/// Every record of a search marks an occurrence: its line is a line of the
/// file, byte for byte and under its number, its column lies in that line
/// with room for the pattern, and the pattern stands at that column under
/// the chosen comparison.
pub proof fn lemma_fundstelle_passt(inhalt: Seq<u8>, muster: Seq<u8>, falten: bool, i: int)
    requires
        muster.len() > 0,
        0 <= i < alle_fundstellen(inhalt, muster, falten).len(),
    ensures
        ({
            let r = alle_fundstellen(inhalt, muster, falten)[i];
            &&& 1 <= r.zeile <= zeilen(inhalt).len()
            &&& r.inhalt == zeilen(inhalt)[r.zeile - 1]
            &&& 1 <= r.spalte <= r.inhalt.len() - muster.len() + 1
            &&& passt(r.inhalt, muster, falten, r.spalte - 1)
        }),
{
    lemma_fundstelle_ab(zeilen(inhalt), muster, falten, 1, i);
    let r = alle_fundstellen(inhalt, muster, falten)[i];
    assert(gefaltet(muster, falten).len() == muster.len());
    assert(gefaltet(r.inhalt, falten).len() == r.inhalt.len());
}

/// A record carries its occurrence as the file has it: the bytes of the
/// record's line at its column are those of the file's line, they compare
/// equal to the pattern, and folding is applied to neither.
pub proof fn lemma_fundstelle_in_urspruenglicher_schreibung(
    inhalt: Seq<u8>,
    muster: Seq<u8>,
    falten: bool,
    i: int,
)
    requires
        muster.len() > 0,
        0 <= i < alle_fundstellen(inhalt, muster, falten).len(),
    ensures
        ({
            let r = alle_fundstellen(inhalt, muster, falten)[i];
            let stelle = r.inhalt.subrange(r.spalte - 1, r.spalte - 1 + muster.len());
            &&& stelle == zeilen(inhalt)[r.zeile - 1].subrange(
                r.spalte - 1,
                r.spalte - 1 + muster.len(),
            )
            &&& gefaltet(stelle, falten) == gefaltet(muster, falten)
            &&& !falten ==> stelle == muster
        }),
{
    lemma_fundstelle_passt(inhalt, muster, falten, i);
    let r = alle_fundstellen(inhalt, muster, falten)[i];
    let o = r.spalte - 1;
    let stelle = r.inhalt.subrange(o, o + muster.len());
    assert(gefaltet(stelle, falten) =~= gefaltet(r.inhalt, falten).subrange(o, o + muster.len()));
}

proof fn lemma_teilstringsuche_ab(zs: Seq<Seq<u8>>, muster: Seq<u8>, offs: Seq<Seq<int>>, n: int)
    requires
        muster.len() > 0,
        offs.len() == zs.len(),
        forall|l: int| 0 <= l < zs.len() ==> ist_trefferfolge_ab(#[trigger] zs[l], muster, 0, offs[l]),
    ensures
        fundstellen_ab(zs, muster, false, n) == fundstellen_aus(zs, offs, n),
    decreases zs.len(),
{
    if zs.len() > 0 {
        assert(ist_trefferfolge_ab(zs[0], muster, 0, offs[0]));
        lemma_ohne_faltung_ist_teilstringsuche(zs[0], muster, offs[0]);
        let zs2 = zs.drop_first();
        let offs2 = offs.drop_first();
        assert forall|l: int| 0 <= l < zs2.len() implies ist_trefferfolge_ab(
            #[trigger] zs2[l],
            muster,
            0,
            offs2[l],
        ) by {
            assert(zs2[l] == zs[l + 1]);
            assert(offs2[l] == offs[l + 1]);
        }
        lemma_teilstringsuche_ab(zs2, muster, offs2, n + 1);
    }
}

/// Without folding the search is substring search by byte equality. Let
/// `offs` give for every line of the file the leftmost non-overlapping
/// places at which the line holds the pattern's own bytes; then the records
/// of the search are the records for those places.
pub proof fn lemma_suche_ohne_faltung_ist_teilstringsuche(
    inhalt: Seq<u8>,
    muster: Seq<u8>,
    offs: Seq<Seq<int>>,
)
    requires
        muster.len() > 0,
        offs.len() == zeilen(inhalt).len(),
        forall|l: int|
            0 <= l < offs.len() ==> ist_trefferfolge_ab(
                #[trigger] zeilen(inhalt)[l],
                muster,
                0,
                offs[l],
            ),
    ensures
        alle_fundstellen(inhalt, muster, false) == fundstellen_aus(zeilen(inhalt), offs, 1),
{
    lemma_teilstringsuche_ab(zeilen(inhalt), muster, offs, 1);
}

/// Records come in the order of the file: a later record lies in a later
/// line, or in the same line at least a pattern's length further right.
pub proof fn lemma_fundstellen_geordnet(
    inhalt: Seq<u8>,
    muster: Seq<u8>,
    falten: bool,
    i: int,
    j: int,
)
    requires
        muster.len() > 0,
        0 <= i < j < alle_fundstellen(inhalt, muster, falten).len(),
    ensures
        ({
            let a = alle_fundstellen(inhalt, muster, falten)[i];
            let b = alle_fundstellen(inhalt, muster, falten)[j];
            a.zeile < b.zeile || (a.zeile == b.zeile && a.spalte + muster.len() <= b.spalte)
        }),
{
    lemma_geordnet_ab(zeilen(inhalt), muster, falten, 1, i, j);
}

/// Searching the same contents for the same pattern under the same
/// comparison gives the same outcome every time: the same error, or records
/// that agree in number, line number, column and line.
pub proof fn lemma_suche_wiederholbar(
    inhalt: Seq<u8>,
    muster: Seq<u8>,
    falten: bool,
    r1: Result<Vec<Suchergebnis>, Suchfehler>,
    r2: Result<Vec<Suchergebnis>, Suchfehler>,
)
    requires
        ist_suchergebnis(inhalt, muster, falten, r1),
        ist_suchergebnis(inhalt, muster, falten, r2),
    ensures
        r1 is Ok <==> r2 is Ok,
        r1 is Err ==> r1->Err_0 == r2->Err_0,
        r1 is Ok ==> r1->Ok_0@.len() == r2->Ok_0@.len(),
        r1 is Ok ==> forall|i: int|
            #![trigger r1->Ok_0@[i]]
            #![trigger r2->Ok_0@[i]]
            0 <= i < r1->Ok_0@.len() ==> {
                &&& r1->Ok_0@[i].zeilennummer == r2->Ok_0@[i].zeilennummer
                &&& r1->Ok_0@[i].spaltennummer == r2->Ok_0@[i].spaltennummer
                &&& r1->Ok_0@[i].zeileninhalt@ == r2->Ok_0@[i].zeileninhalt@
            },
{
    if r1 is Ok {
        let v1 = r1->Ok_0@;
        let v2 = r2->Ok_0@;
        assert(sicht(v1).len() == sicht(v2).len());
        assert forall|i: int| 0 <= i < v1.len() implies {
            &&& v1[i].zeilennummer == v2[i].zeilennummer
            &&& v1[i].spaltennummer == v2[i].spaltennummer
            &&& v1[i].zeileninhalt@ == v2[i].zeileninhalt@
        } by {
            assert(sicht(v1)[i] == sicht(v2)[i]);
            encode_utf8_decode_utf8(v1[i].zeileninhalt@);
            encode_utf8_decode_utf8(v2[i].zeileninhalt@);
        }
    }
}

} // verus!
