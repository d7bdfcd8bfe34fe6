//! Character boundaries in UTF-8 text: where a `str` may be cut at the byte
//! offsets that the search works with.

use vstd::prelude::*;
use vstd::string::*;
use vstd::utf8::*;
use crate::treffer::{lemma_passt_byteweise, passt, vergleichsbyte};

verus! {

/// In valid UTF-8 a byte of the ASCII range is a character of its own: the
/// text may be cut in front of it and behind it.
pub proof fn lemma_ascii_byte_ist_zeichen(b: Seq<u8>, i: int)
    requires
        valid_utf8(b),
        0 <= i < b.len(),
        b[i] < 0x80,
    ensures
        is_char_boundary(b, i),
        is_char_boundary(b, i + 1),
{
    is_char_boundary_iff_not_is_continuation_byte(b, i);
    if i + 1 == b.len() {
        is_char_boundary_start_end_of_seq(b);
    } else {
        valid_utf8_split(b, i);
        let x = b.subrange(i, b.len() as int);
        assert(x[0] == b[i]);
        assert(valid_first_scalar(x));
        assert(length_of_first_scalar(x) == 1);
        let y = pop_first_scalar(x);
        assert(valid_utf8(y));
        assert(y.len() > 0);
        assert(y[0] == b[i + 1]);
        assert(valid_first_scalar(y));
        assert(!is_continuation_byte(y[0]));
        is_char_boundary_iff_not_is_continuation_byte(b, i + 1);
    }
}

/// The encoding of two texts in a row is the encoding of the first followed
/// by the encoding of the second.
pub proof fn lemma_kodierung_verkettet(a: Seq<char>, b: Seq<char>)
    ensures
        encode_utf8(a + b) == encode_utf8(a) + encode_utf8(b),
    decreases a.len(),
{
    if a.len() == 0 {
        assert(a + b =~= b);
        assert(encode_utf8(a) + encode_utf8(b) =~= encode_utf8(b));
    } else {
        lemma_kodierung_verkettet(a.drop_first(), b);
        assert((a + b).drop_first() =~= a.drop_first() + b);
        assert((a + b)[0] == a[0]);
        assert(encode_utf8(a + b) =~= encode_utf8(a) + encode_utf8(b));
    }
}

/// Folding leaves every byte on its side of the ASCII range, and leaves the
/// bytes outside of it as they are.
proof fn lemma_vergleichsbyte_klasse(a: u8, b: u8, falten: bool)
    requires
        vergleichsbyte(a, falten) == vergleichsbyte(b, falten),
    ensures
        a < 0x80 <==> b < 0x80,
        a >= 0x80 ==> a == b,
{
}

/// Behind an occurrence at the start of a text, the text may be cut: where
/// the pattern's characters end, so do the text's.
pub proof fn lemma_grenze_hinter_treffer(x: Seq<u8>, p: Seq<u8>, falten: bool)
    requires
        valid_utf8(x),
        valid_utf8(p),
        passt(x, p, falten, 0),
    ensures
        is_char_boundary(x, p.len() as int),
    decreases p.len(),
{
    lemma_passt_byteweise(x, p, falten, 0);
    if p.len() > 0 {
        let m = p.len() as int;
        let k = length_of_first_scalar(p);
        assert(valid_first_scalar(p));
        assert(1 <= k <= m);
        assert forall|j: int| 0 <= j < m implies (x[j] < 0x80 <==> p[j] < 0x80) && (x[j] >= 0x80
            ==> x[j] == p[j]) by {
            assert(vergleichsbyte(x[0 + j], falten) == vergleichsbyte(p[j], falten));
            lemma_vergleichsbyte_klasse(x[j], p[j], falten);
        }
        assert(x[0] < 0x80 <==> p[0] < 0x80);
        assert(valid_first_scalar(x));
        assert(length_of_first_scalar(x) == k);
        let x2 = pop_first_scalar(x);
        let p2 = pop_first_scalar(p);
        assert(valid_utf8(x2));
        assert(valid_utf8(p2));
        lemma_passt_byteweise(x2, p2, falten, 0);
        assert forall|j: int| 0 <= j < p2.len() implies vergleichsbyte(
            #[trigger] x2[0 + j],
            falten,
        ) == vergleichsbyte(p2[j], falten) by {
            assert(x2[j] == x[0 + (j + k)]);
            assert(p2[j] == p[j + k]);
        }
        assert(passt(x2, p2, falten, 0));
        lemma_grenze_hinter_treffer(x2, p2, falten);
        assert(p2.len() == m - k);
    }
}

/// An occurrence of a text in a text begins and ends between characters, so
/// the line may be cut in front of it and behind it.
pub proof fn lemma_treffer_an_zeichengrenzen(zeile: Seq<u8>, muster: Seq<u8>, falten: bool, o: int)
    requires
        valid_utf8(zeile),
        valid_utf8(muster),
        muster.len() > 0,
        passt(zeile, muster, falten, o),
    ensures
        is_char_boundary(zeile, o),
        is_char_boundary(zeile, o + muster.len()),
{
    let m = muster.len() as int;
    lemma_passt_byteweise(zeile, muster, falten, o);
    assert(valid_first_scalar(muster));
    assert(vergleichsbyte(zeile[o + 0], falten) == vergleichsbyte(muster[0], falten));
    lemma_vergleichsbyte_klasse(zeile[o], muster[0], falten);
    is_char_boundary_iff_not_is_continuation_byte(zeile, o);
    valid_utf8_split(zeile, o);
    let x = zeile.subrange(o, zeile.len() as int);
    lemma_passt_byteweise(x, muster, falten, 0);
    assert forall|j: int| 0 <= j < m implies vergleichsbyte(#[trigger] x[0 + j], falten)
        == vergleichsbyte(muster[j], falten) by {
        assert(x[j] == zeile[o + j]);
    }
    lemma_grenze_hinter_treffer(x, muster, falten);
    if o + m == zeile.len() {
        is_char_boundary_start_end_of_seq(zeile);
    } else {
        valid_utf8_split(x, m);
        let y = x.subrange(m, x.len() as int);
        assert(y.len() > 0);
        assert(valid_first_scalar(y));
        assert(y[0] == zeile[o + m]);
        is_char_boundary_iff_not_is_continuation_byte(zeile, o + m);
    }
}

/// The length of a text in bytes.
pub fn bytelaenge(text: &str) -> (n: usize)
    ensures
        n == text.spec_bytes().len(),
{
    text.as_bytes().len()
}

} // verus!
