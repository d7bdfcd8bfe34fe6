//! Splitting file contents into lines: cut at every LF, drop the LF, and
//! produce no empty last line when the contents end with one.

use vstd::prelude::*;
use vstd::string::*;
use vstd::utf8::*;
use crate::grenzen::lemma_ascii_byte_ist_zeichen;

verus! {

/// The line terminator. A carriage return in front of it belongs to the line.
pub const LF: u8 = 0x0a;

/// The position of the first LF at or after `i`, or the length of `b` where
/// none follows.
pub open spec fn zeilenende_ab(b: Seq<u8>, i: int) -> int
    decreases b.len() - i,
{
    if i < 0 || i >= b.len() {
        b.len() as int
    } else if b[i] == LF {
        i
    } else {
        zeilenende_ab(b, i + 1)
    }
}

/// Where the first line of `b` ends: at the first LF, or at the end of `b`.
pub open spec fn zeilenende(b: Seq<u8>) -> int {
    zeilenende_ab(b, 0)
}

/// The first line of `b`, without its terminator.
pub open spec fn erste_zeile(b: Seq<u8>) -> Seq<u8> {
    b.subrange(0, zeilenende(b))
}

/// What follows the first line and its terminator.
pub open spec fn nach_erster_zeile(b: Seq<u8>) -> Seq<u8> {
    if zeilenende(b) < b.len() {
        b.subrange(zeilenende(b) + 1, b.len() as int)
    } else {
        Seq::empty()
    }
}

/// The lines of `b`. Empty contents have no line; contents that end with an
/// LF have no empty line behind it.
pub open spec fn zeilen(b: Seq<u8>) -> Seq<Seq<u8>>
    decreases b.len(),
    via zeilen_nimmt_ab
{
    if b.len() == 0 {
        Seq::empty()
    } else {
        seq![erste_zeile(b)] + zeilen(nach_erster_zeile(b))
    }
}

#[via_fn]
proof fn zeilen_nimmt_ab(b: Seq<u8>) {
    lemma_zeilenende_ab(b, 0);
}

/// The end of a line lies in the text, no LF stands before it, and an LF
/// stands at it unless the text ends there.
pub proof fn lemma_zeilenende_ab(b: Seq<u8>, i: int)
    requires
        0 <= i <= b.len(),
    ensures
        i <= zeilenende_ab(b, i) <= b.len(),
        forall|j: int| i <= j < zeilenende_ab(b, i) ==> b[j] != LF,
        zeilenende_ab(b, i) < b.len() ==> b[zeilenende_ab(b, i)] == LF,
    decreases b.len() - i,
{
    if i < b.len() && b[i] != LF {
        lemma_zeilenende_ab(b, i + 1);
    }
}

/// Where the first line of `b` ends.
pub fn finde_zeilenende(b: &[u8]) -> (e: usize)
    ensures
        e == zeilenende(b@),
        e <= b@.len(),
{
    let n: usize = b.len();
    let mut i: usize = 0;
    while i < n && b[i] != LF
        invariant
            n == b@.len(),
            i <= n,
            zeilenende(b@) == zeilenende_ab(b@, i as int),
        decreases n - i,
    {
        i += 1;
    }
    i
}

/// Cuts the first line off a text: the line without its terminator, and
/// what follows the terminator.
pub fn teile_zeile<'a>(text: &'a str) -> (r: (&'a str, &'a str))
    ensures
        r.0.spec_bytes() == erste_zeile(text.spec_bytes()),
        r.1.spec_bytes() == nach_erster_zeile(text.spec_bytes()),
{
    let b = text.as_bytes();
    let e: usize = finde_zeilenende(b);
    proof {
        broadcast use encode_utf8_valid_utf8;

        lemma_zeilenende_ab(b@, 0);
        is_char_boundary_start_end_of_seq(b@);
        if e < b@.len() {
            lemma_ascii_byte_ist_zeichen(b@, e as int);
        }
    }
    let (zeile, ab_lf) = text.split_at(e);
    if e == b.len() {
        assert(ab_lf.spec_bytes() =~= Seq::<u8>::empty());
        (zeile, ab_lf)
    } else {
        proof {
            broadcast use encode_utf8_valid_utf8;

            lemma_ascii_byte_ist_zeichen(ab_lf.spec_bytes(), 0);
        }
        let (_, nach) = ab_lf.split_at(1);
        assert(nach.spec_bytes() =~= nach_erster_zeile(text.spec_bytes()));
        (zeile, nach)
    }
}

/// The bytes of each of a list of texts.
pub open spec fn zeilenbytes(v: Seq<&str>) -> Seq<Seq<u8>> {
    Seq::new(v.len(), |i: int| v[i].spec_bytes())
}

/// The lines of a text, in their order.
pub fn teile_in_zeilen<'a>(inhalt: &'a str) -> (v: Vec<&'a str>)
    ensures
        zeilenbytes(v@) == zeilen(inhalt.spec_bytes()),
{
    let ghost alle = zeilen(inhalt.spec_bytes());
    let mut v: Vec<&'a str> = Vec::new();
    let mut rest: &'a str = inhalt;
    assert(zeilenbytes(v@) + zeilen(rest.spec_bytes()) =~= alle);
    while rest.as_bytes().len() > 0
        invariant
            alle == zeilenbytes(v@) + zeilen(rest.spec_bytes()),
        decreases rest.spec_bytes().len(),
    {
        let ghost rb = rest.spec_bytes();
        let ghost davor = zeilenbytes(v@);
        let (zeile, nach) = teile_zeile(rest);
        proof {
            lemma_zeilenende_ab(rb, 0);
        }
        v.push(zeile);
        proof {
            assert(zeilenbytes(v@) =~= davor.push(zeile.spec_bytes()));
            assert(davor + (seq![erste_zeile(rb)] + zeilen(nach.spec_bytes())) =~= davor.push(
                zeile.spec_bytes(),
            ) + zeilen(nach.spec_bytes()));
        }
        rest = nach;
    }
    assert(alle =~= zeilenbytes(v@));
    v
}

} // verus!
