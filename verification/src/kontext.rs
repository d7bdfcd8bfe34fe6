//! The context window: the lines around an occurrence that are shown with
//! it.

use vstd::prelude::*;
use vstd::string::*;
use vstd::utf8::*;
use crate::zeilen::{teile_in_zeilen, zeilen, zeilenbytes};

verus! {

/// A line of the context, with the number under which it stands in the
/// file.
#[derive(Debug, Clone)]
pub struct Kontextzeile {
    /// Number of the line, counted from 1.
    pub zeilennummer: usize,
    /// The line as it stands in the file.
    pub zeileninhalt: String,
}

/// A line of the context as the contracts see it.
pub struct Nachbarzeile {
    pub zeile: int,
    pub inhalt: Seq<u8>,
}

impl View for Kontextzeile {
    type V = Nachbarzeile;

    open spec fn view(&self) -> Nachbarzeile {
        Nachbarzeile { zeile: self.zeilennummer as int, inhalt: encode_utf8(self.zeileninhalt@) }
    }
}

/// A list of context lines as the contracts see it.
pub open spec fn kontextsicht(v: Seq<Kontextzeile>) -> Seq<Nachbarzeile> {
    Seq::new(v.len(), |i: int| v[i]@)
}

/// The lines with the numbers `von` to `bis`, both included, each with its
/// number; none where `von` lies behind `bis`.
pub open spec fn bereich(zs: Seq<Seq<u8>>, von: int, bis: int) -> Seq<Nachbarzeile> {
    if von <= bis {
        Seq::new(
            (bis - von + 1) as nat,
            |i: int| Nachbarzeile { zeile: von + i, inhalt: zs[von + i - 1] },
        )
    } else {
        Seq::empty()
    }
}

/// The larger of two numbers.
pub open spec fn groessere(a: int, b: int) -> int {
    if a >= b {
        a
    } else {
        b
    }
}

/// The smaller of two numbers.
pub open spec fn kleinere(a: int, b: int) -> int {
    if a <= b {
        a
    } else {
        b
    }
}

/// The context of line `n` with window `k` in a file of the lines `zs`: the
/// lines from `n - k` to `n + k` that the file has, without line `n` itself.
pub open spec fn kontext(zs: Seq<Seq<u8>>, n: int, k: int) -> Seq<Nachbarzeile> {
    bereich(zs, groessere(1, n - k), kleinere(zs.len() as int, n - 1)) + bereich(
        zs,
        groessere(1, n + 1),
        kleinere(zs.len() as int, n + k),
    )
}

/// Appends the lines with the numbers `von + 1` to `bis` to `ziel`.
fn haenge_bereich_an(ziel: &mut Vec<Kontextzeile>, zeilen: &Vec<&str>, von: usize, bis: usize)
    requires
        bis <= zeilen@.len(),
    ensures
        kontextsicht(final(ziel)@) == kontextsicht(old(ziel)@) + bereich(
            zeilenbytes(zeilen@),
            von + 1,
            bis as int,
        ),
{
    let ghost vorher = kontextsicht(ziel@);
    let ghost zs = zeilenbytes(zeilen@);
    let ghost soll = bereich(zs, von + 1, bis as int);
    if von >= bis {
        assert(kontextsicht(ziel@) =~= vorher + soll);
        return;
    }
    let mut j: usize = von;
    assert(soll.take(0) =~= Seq::<Nachbarzeile>::empty());
    assert(kontextsicht(ziel@) =~= vorher + soll.take(0));
    while j < bis
        invariant
            von <= j <= bis,
            von < bis <= zeilen@.len(),
            zs == zeilenbytes(zeilen@),
            soll == bereich(zs, von + 1, bis as int),
            kontextsicht(ziel@) == vorher + soll.take(j - von),
        decreases bis - j,
    {
        let ghost davor = kontextsicht(ziel@);
        let eintrag = Kontextzeile { zeilennummer: j + 1, zeileninhalt: zeilen[j].to_owned() };
        assert(eintrag@ == soll[j - von]);
        ziel.push(eintrag);
        assert(kontextsicht(ziel@) =~= davor.push(soll[j - von]));
        assert(soll.take(j + 1 - von) =~= soll.take(j - von).push(soll[j - von]));
        j += 1;
    }
    assert(soll.take(bis - von) =~= soll);
}

/// The context of line number `zeilennummer` among `zeilen`, the lines of a
/// file: up to `kontextzeilen` lines before it and as many after it, as far
/// as the file has them, each with its number.
pub fn kontext_aus_zeilen(zeilen: &Vec<&str>, zeilennummer: usize, kontextzeilen: usize) -> (v: Vec<
    Kontextzeile,
>)
    ensures
        kontextsicht(v@) == kontext(
            zeilenbytes(zeilen@),
            zeilennummer as int,
            kontextzeilen as int,
        ),
{
    let anzahl: usize = zeilen.len();
    let n: usize = zeilennummer;
    let k: usize = kontextzeilen;
    let mut v: Vec<Kontextzeile> = Vec::new();
    assert(kontextsicht(v@) =~= Seq::<Nachbarzeile>::empty());
    let von_davor: usize = if n > k {
        n - k - 1
    } else {
        0
    };
    let bis_davor: usize = if n == 0 {
        0
    } else if n - 1 < anzahl {
        n - 1
    } else {
        anzahl
    };
    haenge_bereich_an(&mut v, zeilen, von_davor, bis_davor);
    let bis_danach: usize = if n >= anzahl {
        n
    } else if k >= anzahl - n {
        anzahl
    } else {
        n + k
    };
    if n < anzahl {
        haenge_bereich_an(&mut v, zeilen, n, bis_danach);
    }
    proof {
        let zs = zeilenbytes(zeilen@);
        assert(bereich(zs, von_davor + 1, bis_davor as int) =~= bereich(
            zs,
            groessere(1, n - k),
            kleinere(zs.len() as int, n - 1),
        ));
        assert(bereich(zs, groessere(1, n + 1), kleinere(zs.len() as int, n + k)) =~= (if n
            < anzahl {
            bereich(zs, n + 1, bis_danach as int)
        } else {
            Seq::empty()
        }));
        assert(kontextsicht(v@) =~= kontext(zs, n as int, k as int));
    }
    v
}

/// The context of line number `zeilennummer` in a file with the contents
/// `inhalt`.
pub fn kontext_der_zeile(inhalt: &str, zeilennummer: usize, kontextzeilen: usize) -> (v: Vec<
    Kontextzeile,
>)
    ensures
        kontextsicht(v@) == kontext(
            zeilen(inhalt.spec_bytes()),
            zeilennummer as int,
            kontextzeilen as int,
        ),
{
    let alle = teile_in_zeilen(inhalt);
    kontext_aus_zeilen(&alle, zeilennummer, kontextzeilen)
}

} // verus!
