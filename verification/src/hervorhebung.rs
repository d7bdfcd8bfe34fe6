//! The highlighter: a line in which every occurrence of the pattern is
//! wrapped in the terminal's escape sequences for green, in the case in which
//! the line has it.

use vstd::prelude::*;
use vstd::string::*;
use vstd::utf8::*;
use crate::grenzen::{
    bytelaenge, lemma_grenze_hinter_treffer, lemma_kodierung_verkettet,
    lemma_treffer_an_zeichengrenzen,
};
use crate::treffer::{
    als_ganzzahlen, finde_vorkommen, gefaltet, ist_trefferfolge, lemma_passt_byteweise,
    lemma_vorkommen_ist_trefferfolge, passt, suchbeginn, vergleichsbyte, vorkommen,
};

verus! {

/// A piece of a line: its bytes, and whether it is an occurrence of the
/// pattern.
pub struct Fragment {
    pub text: Seq<u8>,
    pub markiert: bool,
}

/// The pieces of `zeile` up to the end of occurrence number `k`: in turn the
/// text in front of an occurrence and the occurrence itself, both as they
/// stand in the line.
pub open spec fn fragmente_bis(zeile: Seq<u8>, offs: Seq<int>, m: int, k: int) -> Seq<Fragment>
    decreases k,
{
    if k <= 0 {
        Seq::empty()
    } else {
        fragmente_bis(zeile, offs, m, k - 1).push(
            Fragment {
                text: zeile.subrange(suchbeginn(offs, m, 0, k - 1), offs[k - 1]),
                markiert: false,
            },
        ).push(Fragment { text: zeile.subrange(offs[k - 1], offs[k - 1] + m), markiert: true })
    }
}

/// The pieces of the whole of `zeile`, cut at the occurrences of length `m`
/// that start at the offsets `offs`: those up to the last occurrence, and
/// what follows it.
pub open spec fn fragmente(zeile: Seq<u8>, offs: Seq<int>, m: int) -> Seq<Fragment> {
    fragmente_bis(zeile, offs, m, offs.len() as int).push(
        Fragment {
            text: zeile.subrange(suchbeginn(offs, m, 0, offs.len() as int), zeile.len() as int),
            markiert: false,
        },
    )
}

/// The pieces into which the occurrences of `muster` cut `zeile`.
pub open spec fn zerlegung(zeile: Seq<u8>, muster: Seq<u8>, falten: bool) -> Seq<Fragment> {
    fragmente(zeile, vorkommen(zeile, muster, falten), muster.len() as int)
}

/// One piece as it is shown: between `an` and `aus` where it is an
/// occurrence, bare where it is not.
pub open spec fn stueck(f: Fragment, an: Seq<u8>, aus: Seq<u8>) -> Seq<u8> {
    if f.markiert {
        an + f.text + aus
    } else {
        f.text
    }
}

/// The pieces in a row, as they are shown.
pub open spec fn dargestellt(fs: Seq<Fragment>, an: Seq<u8>, aus: Seq<u8>) -> Seq<u8>
    decreases fs.len(),
{
    if fs.len() == 0 {
        Seq::empty()
    } else {
        dargestellt(fs.drop_last(), an, aus) + stueck(fs.last(), an, aus)
    }
}

/// The pieces in a row without any decoration.
pub open spec fn klartext(fs: Seq<Fragment>) -> Seq<u8> {
    dargestellt(fs, Seq::empty(), Seq::empty())
}

/// The bytes that switch the terminal's foreground to green: ESC `[32m`.
pub open spec fn markierung_an() -> Seq<u8> {
    seq![0x1bu8, 0x5bu8, 0x33u8, 0x32u8, 0x6du8]
}

/// The bytes that switch the terminal's foreground back to its default:
/// ESC `[39m`.
pub open spec fn markierung_aus() -> Seq<u8> {
    seq![0x1bu8, 0x5bu8, 0x33u8, 0x39u8, 0x6du8]
}

/// What the highlighter returns for a line and a pattern.
pub open spec fn hervorgehoben(zeile: Seq<u8>, muster: Seq<u8>, falten: bool) -> Seq<u8> {
    dargestellt(zerlegung(zeile, muster, falten), markierung_an(), markierung_aus())
}

/// `text` in green, by `owo_colors::OwoColorize::green` and the `Display` of
/// what that returns. Taken on trust from the crate's source: the result is
/// the foreground code for green, the text unchanged, and the code that
/// resets the foreground.
#[verifier::external_body]
fn gruen(text: &str) -> (r: String)
    ensures
        encode_utf8(r@) == markierung_an() + text.spec_bytes() + markierung_aus(),
{
    owo_colors::OwoColorize::green(&text).to_string()
}

/// Appends `text` to `ziel`.
fn haenge_an(ziel: &mut String, text: &str)
    ensures
        encode_utf8(final(ziel)@) == encode_utf8(old(ziel)@) + text.spec_bytes(),
{
    proof {
        lemma_kodierung_verkettet(ziel@, text@);
    }
    ziel.append(text);
}

/// Returns `zeile` with every occurrence of `suchmuster` shown in green. The
/// occurrences are found under the chosen comparison and shown as they stand
/// in the line; everything else is copied unchanged.
pub fn faerbe_suchstring(zeile: &str, suchmuster: &str, case_insensitive: bool) -> (r: String)
    ensures
        encode_utf8(r@) == hervorgehoben(
            zeile.spec_bytes(),
            suchmuster.spec_bytes(),
            case_insensitive,
        ),
{
    let ghost zb = zeile.spec_bytes();
    let ghost mb = suchmuster.spec_bytes();
    let ghost offs = vorkommen(zb, mb, case_insensitive);
    let ghost an = markierung_an();
    let ghost aus = markierung_aus();
    let offsets = finde_vorkommen(zeile.as_bytes(), suchmuster.as_bytes(), case_insensitive);
    let m: usize = bytelaenge(suchmuster);
    let n: usize = bytelaenge(zeile);
    let mut result = String::new();
    let mut rest: &str = zeile;
    let mut last_end: usize = 0;
    let mut k: usize = 0;
    proof {
        broadcast use encode_utf8_valid_utf8;

        assert(gefaltet(mb, case_insensitive).len() == mb.len());
        if m > 0 {
            lemma_vorkommen_ist_trefferfolge(zb, mb, case_insensitive);
        } else {
            assert(offs.len() == 0);
            assert(als_ganzzahlen(offsets@).len() == offsets@.len());
        }
        assert(rest.spec_bytes() =~= zb.subrange(0, zb.len() as int));
        assert(encode_utf8(result@) =~= Seq::<u8>::empty());
    }
    while k < offsets.len()
        invariant
            zb == zeile.spec_bytes(),
            mb == suchmuster.spec_bytes(),
            offs == vorkommen(zb, mb, case_insensitive),
            als_ganzzahlen(offsets@) == offs,
            m == mb.len(),
            n == zb.len(),
            k <= offsets@.len(),
            k < offsets@.len() ==> m > 0 && ist_trefferfolge(zb, mb, case_insensitive, offs),
            last_end == suchbeginn(offs, m as int, 0, k as int),
            last_end <= n,
            rest.spec_bytes() == zb.subrange(last_end as int, n as int),
            an == markierung_an(),
            aus == markierung_aus(),
            encode_utf8(result@) == dargestellt(fragmente_bis(zb, offs, m as int, k as int), an, aus),
        decreases offsets@.len() - k,
    {
        let o: usize = offsets[k];
        let ghost rb = rest.spec_bytes();
        let ghost fertig = fragmente_bis(zb, offs, m as int, k as int);
        proof {
            broadcast use encode_utf8_valid_utf8;

            assert(als_ganzzahlen(offsets@)[k as int] == o as int);
            assert(offs[k as int] == o as int);
            assert(suchbeginn(offs, m as int, 0, k as int) <= offs[k as int]);
            assert(passt(zb, mb, case_insensitive, o as int));
            assert(gefaltet(zb, case_insensitive).len() == zb.len());
            assert(gefaltet(mb, case_insensitive).len() == mb.len());
            lemma_passt_byteweise(zb, mb, case_insensitive, o as int);
            lemma_passt_byteweise(rb, mb, case_insensitive, o - last_end);
            assert forall|j: int| 0 <= j < mb.len() implies vergleichsbyte(
                #[trigger] rb[(o - last_end) + j],
                case_insensitive,
            ) == vergleichsbyte(mb[j], case_insensitive) by {
                assert(rb[(o - last_end) + j] == zb[o + j]);
            }
            lemma_treffer_an_zeichengrenzen(rb, mb, case_insensitive, o - last_end);
        }
        let (vor, ab) = rest.split_at(o - last_end);
        proof {
            broadcast use encode_utf8_valid_utf8;

            let xb = ab.spec_bytes();
            lemma_passt_byteweise(xb, mb, case_insensitive, 0);
            assert forall|j: int| 0 <= j < mb.len() implies vergleichsbyte(
                #[trigger] xb[0 + j],
                case_insensitive,
            ) == vergleichsbyte(mb[j], case_insensitive) by {
                assert(xb[j] == zb[o + j]);
            }
            lemma_grenze_hinter_treffer(xb, mb, case_insensitive);
        }
        let (treffer, nach) = ab.split_at(m);
        haenge_an(&mut result, vor);
        let farbig = gruen(treffer);
        proof {
            lemma_kodierung_verkettet(result@, farbig@);
        }
        result.append(farbig.as_str());
        proof {
            assert(vor.spec_bytes() =~= zb.subrange(last_end as int, o as int));
            assert(treffer.spec_bytes() =~= zb.subrange(o as int, o + m));
            assert(nach.spec_bytes() =~= zb.subrange(o + m, n as int));
            let f1 = Fragment { text: zb.subrange(last_end as int, o as int), markiert: false };
            let f2 = Fragment { text: zb.subrange(o as int, o + m), markiert: true };
            let neu = fragmente_bis(zb, offs, m as int, k + 1);
            let mitte = fertig.push(f1);
            assert(neu == mitte.push(f2));
            assert(neu.drop_last() =~= mitte);
            assert(neu.last() == f2);
            assert(mitte.drop_last() =~= fertig);
            assert(mitte.last() == f1);
            assert(dargestellt(mitte, an, aus) == dargestellt(fertig, an, aus) + stueck(f1, an, aus));
            assert(dargestellt(neu, an, aus) == dargestellt(mitte, an, aus) + stueck(f2, an, aus));
        }
        rest = nach;
        last_end = o + m;
        k += 1;
    }
    haenge_an(&mut result, rest);
    proof {
        let fertig = fragmente_bis(zb, offs, m as int, k as int);
        let alle = zerlegung(zb, mb, case_insensitive);
        assert(alle.drop_last() =~= fertig);
    }
    result
}

/// The offsets `offs` cut a line of length `n` into pieces: each lies at or
/// behind the end of the one before, and each leaves room for `m` bytes.
spec fn schneidet(offs: Seq<int>, m: int, n: int) -> bool {
    &&& 0 <= m
    &&& 0 <= n
    &&& forall|k: int|
        0 <= k < offs.len() ==> 0 <= #[trigger] suchbeginn(offs, m, 0, k) <= offs[k] && offs[k] + m
            <= n
}

proof fn lemma_schnitt_ende(offs: Seq<int>, m: int, n: int, k: int)
    requires
        schneidet(offs, m, n),
        0 <= k <= offs.len(),
    ensures
        0 <= suchbeginn(offs, m, 0, k) <= n,
{
    if k > 0 {
        assert(0 <= suchbeginn(offs, m, 0, k - 1) <= offs[k - 1]);
    }
}

proof fn lemma_klartext_bis(zeile: Seq<u8>, offs: Seq<int>, m: int, k: int)
    requires
        schneidet(offs, m, zeile.len() as int),
        0 <= k <= offs.len(),
    ensures
        klartext(fragmente_bis(zeile, offs, m, k)) == zeile.subrange(
            0,
            suchbeginn(offs, m, 0, k),
        ),
        fragmente_bis(zeile, offs, m, k).len() == 2 * k,
    decreases k,
{
    let leer = Seq::<u8>::empty();
    if k > 0 {
        lemma_klartext_bis(zeile, offs, m, k - 1);
        lemma_schnitt_ende(offs, m, zeile.len() as int, k - 1);
        assert(0 <= suchbeginn(offs, m, 0, k - 1) <= offs[k - 1]);
        let fertig = fragmente_bis(zeile, offs, m, k - 1);
        let f1 = Fragment {
            text: zeile.subrange(suchbeginn(offs, m, 0, k - 1), offs[k - 1]),
            markiert: false,
        };
        let f2 = Fragment { text: zeile.subrange(offs[k - 1], offs[k - 1] + m), markiert: true };
        let mitte = fertig.push(f1);
        let neu = fragmente_bis(zeile, offs, m, k);
        assert(neu == mitte.push(f2));
        assert(neu.drop_last() =~= mitte);
        assert(mitte.drop_last() =~= fertig);
        assert(klartext(mitte) == klartext(fertig) + stueck(f1, leer, leer));
        assert(klartext(neu) == klartext(mitte) + stueck(f2, leer, leer));
        assert(stueck(f2, leer, leer) =~= f2.text);
        assert(klartext(neu) =~= zeile.subrange(0, offs[k - 1] + m));
    } else {
        assert(klartext(fragmente_bis(zeile, offs, m, k)) =~= zeile.subrange(0, 0));
    }
}

proof fn lemma_vorkommen_schneidet(zeile: Seq<u8>, muster: Seq<u8>, falten: bool)
    ensures
        schneidet(vorkommen(zeile, muster, falten), muster.len() as int, zeile.len() as int),
{
    let offs = vorkommen(zeile, muster, falten);
    let m = muster.len() as int;
    assert(gefaltet(muster, falten).len() == muster.len());
    assert(gefaltet(zeile, falten).len() == zeile.len());
    if m > 0 {
        lemma_vorkommen_ist_trefferfolge(zeile, muster, falten);
        assert forall|k: int| 0 <= k < offs.len() implies 0 <= #[trigger] suchbeginn(offs, m, 0, k)
            <= offs[k] && offs[k] + m <= zeile.len() by {
            if k > 0 {
                assert(0 <= suchbeginn(offs, m, 0, k - 1) <= offs[k - 1]) by {
                    lemma_anfang_nicht_negativ(offs, m, k - 1);
                }
            }
        }
    }
}

proof fn lemma_anfang_nicht_negativ(offs: Seq<int>, m: int, k: int)
    requires
        0 <= m,
        0 <= k < offs.len(),
        forall|i: int| 0 <= i < offs.len() ==> #[trigger] suchbeginn(offs, m, 0, i) <= offs[i],
    ensures
        0 <= suchbeginn(offs, m, 0, k) <= offs[k],
    decreases k,
{
    if k > 0 {
        lemma_anfang_nicht_negativ(offs, m, k - 1);
    }
    assert(suchbeginn(offs, m, 0, k) <= offs[k]);
}

/// Taking the decoration off a highlighted line gives the line back: the
/// pieces of a line, put in a row without decoration, are the line.
pub proof fn lemma_ohne_markierung_unveraendert(zeile: Seq<u8>, muster: Seq<u8>, falten: bool)
    ensures
        klartext(zerlegung(zeile, muster, falten)) == zeile,
{
    let offs = vorkommen(zeile, muster, falten);
    let m = muster.len() as int;
    let leer = Seq::<u8>::empty();
    lemma_vorkommen_schneidet(zeile, muster, falten);
    lemma_klartext_bis(zeile, offs, m, offs.len() as int);
    lemma_schnitt_ende(offs, m, zeile.len() as int, offs.len() as int);
    let fertig = fragmente_bis(zeile, offs, m, offs.len() as int);
    let alle = zerlegung(zeile, muster, falten);
    assert(alle.drop_last() =~= fertig);
    assert(klartext(alle) == klartext(fertig) + stueck(alle.last(), leer, leer));
    assert(klartext(alle) =~= zeile);
}

/// The highlighted pieces are the occurrences as the line has them: piece
/// number `2k + 1` is marked and holds the bytes of the line at occurrence
/// number `k`, which compare equal to the pattern but need not be its bytes;
/// the pieces around it are not marked.
pub proof fn lemma_markiert_wie_in_der_zeile(zeile: Seq<u8>, muster: Seq<u8>, falten: bool, k: int)
    requires
        0 <= k < vorkommen(zeile, muster, falten).len(),
    ensures
        ({
            let o = vorkommen(zeile, muster, falten)[k];
            let fs = zerlegung(zeile, muster, falten);
            &&& fs.len() == 2 * vorkommen(zeile, muster, falten).len() + 1
            &&& fs[2 * k + 1] == Fragment {
                text: zeile.subrange(o, o + muster.len()),
                markiert: true,
            }
            &&& !fs[2 * k].markiert
            &&& !fs[2 * k + 2].markiert
            &&& passt(zeile, muster, falten, o)
        }),
{
    let offs = vorkommen(zeile, muster, falten);
    let m = muster.len() as int;
    assert(gefaltet(muster, falten).len() == muster.len());
    lemma_vorkommen_ist_trefferfolge(zeile, muster, falten);
    lemma_fragmente_bis_stellen(zeile, offs, m, offs.len() as int, k);
    if k + 1 < offs.len() {
        lemma_fragmente_bis_stellen(zeile, offs, m, offs.len() as int, k + 1);
    }
}

proof fn lemma_fragmente_bis_stellen(zeile: Seq<u8>, offs: Seq<int>, m: int, bis: int, k: int)
    requires
        0 <= k < bis <= offs.len(),
    ensures
        fragmente_bis(zeile, offs, m, bis).len() == 2 * bis,
        fragmente_bis(zeile, offs, m, bis)[2 * k + 1] == (Fragment {
            text: zeile.subrange(offs[k], offs[k] + m),
            markiert: true,
        }),
        !fragmente_bis(zeile, offs, m, bis)[2 * k].markiert,
    decreases bis,
{
    lemma_fragmente_bis_laenge(zeile, offs, m, bis - 1);
    if k < bis - 1 {
        lemma_fragmente_bis_stellen(zeile, offs, m, bis - 1, k);
    }
}

proof fn lemma_fragmente_bis_laenge(zeile: Seq<u8>, offs: Seq<int>, m: int, bis: int)
    requires
        0 <= bis,
    ensures
        fragmente_bis(zeile, offs, m, bis).len() == 2 * bis,
    decreases bis,
{
    if bis > 0 {
        lemma_fragmente_bis_laenge(zeile, offs, m, bis - 1);
    }
}

} // verus!
