//! The in-line matcher: every non-overlapping occurrence of a pattern in one
//! line, left to right, as byte offsets.

use vstd::prelude::*;

verus! {

/// ASCII lower-casing of one byte: `A`..`Z` become `a`..`z`, every other
/// byte stays as it is.
pub open spec fn klein(b: u8) -> u8 {
    if 0x41 <= b && b <= 0x5a {
        (b + 0x20) as u8
    } else {
        b
    }
}

/// The byte under which `b` is compared: lower-cased when `falten` is set,
/// unchanged otherwise.
pub open spec fn vergleichsbyte(b: u8, falten: bool) -> u8 {
    if falten {
        klein(b)
    } else {
        b
    }
}

/// The bytes under which a text is compared: folded byte by byte when
/// `falten` is set, unchanged otherwise. The length never changes.
pub open spec fn gefaltet(s: Seq<u8>, falten: bool) -> Seq<u8> {
    if falten {
        Seq::new(s.len(), |i: int| klein(s[i]))
    } else {
        s
    }
}

/// `muster` stands in `zeile` at byte offset `o`, compared byte for byte.
pub open spec fn kommt_vor(zeile: Seq<u8>, muster: Seq<u8>, o: int) -> bool {
    &&& 0 <= o
    &&& o + muster.len() <= zeile.len()
    &&& zeile.subrange(o, o + muster.len()) == muster
}

/// The offsets at or after `ab` that a left-to-right scan reports: the
/// leftmost occurrence, then the leftmost one that starts behind its end, and
/// so on. An empty pattern occurs nowhere.
pub open spec fn vorkommen_ab(zeile: Seq<u8>, muster: Seq<u8>, ab: int) -> Seq<int>
    decreases zeile.len() - ab,
{
    if muster.len() == 0 || ab < 0 || ab + muster.len() > zeile.len() {
        Seq::empty()
    } else if kommt_vor(zeile, muster, ab) {
        seq![ab] + vorkommen_ab(zeile, muster, ab + muster.len())
    } else {
        vorkommen_ab(zeile, muster, ab + 1)
    }
}

/// The offsets of all non-overlapping occurrences of `muster` in `zeile`
/// under the chosen comparison. They index `zeile` itself, since folding
/// keeps every byte in its place.
pub open spec fn vorkommen(zeile: Seq<u8>, muster: Seq<u8>, falten: bool) -> Seq<int> {
    vorkommen_ab(gefaltet(zeile, falten), gefaltet(muster, falten), 0)
}

/// `muster` stands in `zeile` at byte offset `o` under the chosen
/// comparison.
pub open spec fn passt(zeile: Seq<u8>, muster: Seq<u8>, falten: bool, o: int) -> bool {
    kommt_vor(gefaltet(zeile, falten), gefaltet(muster, falten), o)
}

/// Where the scan stands before it looks for entry `k` of `s`: at `ab` for
/// the first entry, behind the end of the entry before for every other, and
/// behind the end of the last entry when `k` is the length of `s`.
pub open spec fn suchbeginn(s: Seq<int>, m: int, ab: int, k: int) -> int {
    if k <= 0 {
        ab
    } else {
        s[k - 1] + m
    }
}

/// What it means for `s` to list the leftmost non-overlapping occurrences at
/// or after `ab`: every entry is an occurrence that starts no earlier than
/// the scan stood, no occurrence starts between where the scan stood and the
/// entry it found, and none starts behind the last entry's end.
pub open spec fn ist_trefferfolge_ab(zeile: Seq<u8>, muster: Seq<u8>, ab: int, s: Seq<int>) -> bool {
    let m = muster.len() as int;
    &&& forall|k: int| 0 <= k < s.len() ==> kommt_vor(zeile, muster, #[trigger] s[k])
    &&& forall|k: int| 0 <= k < s.len() ==> #[trigger] suchbeginn(s, m, ab, k) <= s[k]
    &&& forall|k: int, q: int|
        #![trigger suchbeginn(s, m, ab, k), kommt_vor(zeile, muster, q)]
        0 <= k < s.len() && suchbeginn(s, m, ab, k) <= q < s[k] ==> !kommt_vor(zeile, muster, q)
    &&& forall|q: int|
        suchbeginn(s, m, ab, s.len() as int) <= q ==> !#[trigger] kommt_vor(zeile, muster, q)
}

/// The same for a whole line under the chosen comparison.
pub open spec fn ist_trefferfolge(zeile: Seq<u8>, muster: Seq<u8>, falten: bool, s: Seq<int>) -> bool {
    ist_trefferfolge_ab(gefaltet(zeile, falten), gefaltet(muster, falten), 0, s)
}

/// Offsets as mathematical integers.
pub open spec fn als_ganzzahlen(v: Seq<usize>) -> Seq<int> {
    Seq::new(v.len(), |i: int| v[i] as int)
}

/// Lower-cases one byte in the ASCII range.
pub fn klein_byte(b: u8) -> (r: u8)
    ensures
        r == klein(b),
{
    if 0x41 <= b && b <= 0x5a {
        b + 0x20
    } else {
        b
    }
}

/// A copy of `s` with every byte lower-cased in the ASCII range.
pub fn falte(s: &[u8]) -> (r: Vec<u8>)
    ensures
        r@ == gefaltet(s@, true),
{
    let mut r: Vec<u8> = Vec::new();
    let mut i: usize = 0;
    while i < s.len()
        invariant
            i <= s@.len(),
            r@.len() == i,
            forall|j: int| 0 <= j < i ==> r@[j] == klein(s@[j]),
        decreases s@.len() - i,
    {
        r.push(klein_byte(s[i]));
        i += 1;
    }
    assert(r@ =~= gefaltet(s@, true));
    r
}

/// Whether `muster` stands in `zeile` at offset `o`.
fn steht_an(zeile: &[u8], muster: &[u8], o: usize) -> (r: bool)
    requires
        o + muster@.len() <= zeile@.len(),
    ensures
        r == kommt_vor(zeile@, muster@, o as int),
{
    let n: usize = zeile.len();
    let mut j: usize = 0;
    while j < muster.len()
        invariant
            j <= muster@.len(),
            n == zeile@.len(),
            o + muster@.len() <= n,
            forall|k: int| 0 <= k < j ==> zeile@[o + k] == muster@[k],
        decreases muster@.len() - j,
    {
        if zeile[o + j] != muster[j] {
            assert(zeile@.subrange(o as int, o + muster@.len())[j as int] != muster@[j as int]);
            return false;
        }
        j += 1;
    }
    assert(zeile@.subrange(o as int, o + muster@.len()) =~= muster@);
    true
}

/// All non-overlapping occurrences of `muster` in `zeile`, compared byte for
/// byte, as offsets from left to right.
pub fn finde_genau(zeile: &[u8], muster: &[u8]) -> (r: Vec<usize>)
    ensures
        als_ganzzahlen(r@) == vorkommen_ab(zeile@, muster@, 0),
{
    let mut r: Vec<usize> = Vec::new();
    let m: usize = muster.len();
    let n: usize = zeile.len();
    if m == 0 || m > n {
        assert(als_ganzzahlen(r@) =~= vorkommen_ab(zeile@, muster@, 0));
        return r;
    }
    let mut ab: usize = 0;
    while ab <= n - m
        invariant
            m == muster@.len(),
            n == zeile@.len(),
            0 < m <= n,
            ab <= n,
            vorkommen_ab(zeile@, muster@, 0) == als_ganzzahlen(r@) + vorkommen_ab(
                zeile@,
                muster@,
                ab as int,
            ),
        decreases n - ab,
    {
        if steht_an(zeile, muster, ab) {
            let ghost vorher = als_ganzzahlen(r@);
            r.push(ab);
            assert(als_ganzzahlen(r@) =~= vorher + seq![ab as int]);
            ab += m;
        } else {
            ab += 1;
        }
    }
    assert(als_ganzzahlen(r@) =~= als_ganzzahlen(r@) + Seq::<int>::empty());
    r
}

/// All non-overlapping occurrences of `muster` in `zeile` under the chosen
/// comparison, as offsets into `zeile` from left to right.
pub fn finde_vorkommen(zeile: &[u8], muster: &[u8], falten: bool) -> (r: Vec<usize>)
    ensures
        als_ganzzahlen(r@) == vorkommen(zeile@, muster@, falten),
{
    if falten {
        let z = falte(zeile);
        let p = falte(muster);
        finde_genau(z.as_slice(), p.as_slice())
    } else {
        finde_genau(zeile, muster)
    }
}

/// An occurrence under the chosen comparison, said byte by byte: the pattern
/// fits into the line at `o`, and each of its bytes compares equal to the
/// byte of the line that it lies on.
pub proof fn lemma_passt_byteweise(zeile: Seq<u8>, muster: Seq<u8>, falten: bool, o: int)
    ensures
        passt(zeile, muster, falten, o) <==> (0 <= o && o + muster.len() <= zeile.len()
            && forall|j: int|
            0 <= j < muster.len() ==> vergleichsbyte(#[trigger] zeile[o + j], falten)
                == vergleichsbyte(muster[j], falten)),
{
    let z = gefaltet(zeile, falten);
    let p = gefaltet(muster, falten);
    if 0 <= o && o + muster.len() <= zeile.len() {
        if passt(zeile, muster, falten, o) {
            assert forall|j: int| 0 <= j < muster.len() implies vergleichsbyte(
                #[trigger] zeile[o + j],
                falten,
            ) == vergleichsbyte(muster[j], falten) by {
                assert(z.subrange(o, o + muster.len())[j] == p[j]);
            }
        }
        if forall|j: int|
            0 <= j < muster.len() ==> vergleichsbyte(#[trigger] zeile[o + j], falten)
                == vergleichsbyte(muster[j], falten) {
            assert forall|j: int| 0 <= j < p.len() implies z.subrange(o, o + muster.len())[j]
                == p[j] by {
                assert(vergleichsbyte(zeile[o + j], falten) == vergleichsbyte(muster[j], falten));
            }
            assert(z.subrange(o, o + muster.len()) =~= p);
        }
    }
}

proof fn lemma_trefferfolge_ab(zeile: Seq<u8>, muster: Seq<u8>, ab: int)
    requires
        muster.len() > 0,
        0 <= ab,
    ensures
        ist_trefferfolge_ab(zeile, muster, ab, vorkommen_ab(zeile, muster, ab)),
    decreases zeile.len() - ab,
{
    let s = vorkommen_ab(zeile, muster, ab);
    let m = muster.len() as int;
    if ab + m > zeile.len() {
    } else if kommt_vor(zeile, muster, ab) {
        let rest = vorkommen_ab(zeile, muster, ab + m);
        lemma_trefferfolge_ab(zeile, muster, ab + m);
        assert(s =~= seq![ab] + rest);
        assert forall|k: int| 0 < k <= s.len() implies #[trigger] suchbeginn(s, m, ab, k)
            == suchbeginn(rest, m, ab + m, k - 1) by {
            if k >= 2 {
                assert(s[k - 1] == rest[k - 2]);
            }
        }
        assert forall|k: int| 0 <= k < s.len() implies kommt_vor(zeile, muster, #[trigger] s[k]) by {
            if k > 0 {
                assert(s[k] == rest[k - 1]);
            }
        }
        assert forall|k: int| 0 <= k < s.len() implies #[trigger] suchbeginn(s, m, ab, k)
            <= s[k] by {
            if k > 0 {
                assert(s[k] == rest[k - 1]);
                assert(suchbeginn(rest, m, ab + m, k - 1) <= rest[k - 1]);
            }
        }
        assert forall|k: int, q: int|
            #![trigger suchbeginn(s, m, ab, k), kommt_vor(zeile, muster, q)]
            0 <= k < s.len() && suchbeginn(s, m, ab, k) <= q < s[k] implies !kommt_vor(
            zeile,
            muster,
            q,
        ) by {
            assert(k > 0);
            assert(s[k] == rest[k - 1]);
            assert(suchbeginn(rest, m, ab + m, k - 1) <= q);
        }
        assert(suchbeginn(s, m, ab, s.len() as int) == suchbeginn(
            rest,
            m,
            ab + m,
            rest.len() as int,
        ));
    } else {
        lemma_trefferfolge_ab(zeile, muster, ab + 1);
        assert(s == vorkommen_ab(zeile, muster, ab + 1));
        assert forall|k: int| 0 < k <= s.len() implies #[trigger] suchbeginn(s, m, ab, k)
            == suchbeginn(s, m, ab + 1, k) by {}
        assert forall|k: int| 0 <= k < s.len() implies #[trigger] suchbeginn(s, m, ab, k)
            <= s[k] by {
            assert(suchbeginn(s, m, ab + 1, k) <= s[k]);
        }
        assert forall|k: int, q: int|
            #![trigger suchbeginn(s, m, ab, k), kommt_vor(zeile, muster, q)]
            0 <= k < s.len() && suchbeginn(s, m, ab, k) <= q < s[k] implies !kommt_vor(
            zeile,
            muster,
            q,
        ) by {
            if q > ab {
                assert(suchbeginn(s, m, ab + 1, k) <= q);
            }
        }
        assert forall|q: int| suchbeginn(s, m, ab, s.len() as int) <= q implies !#[trigger] kommt_vor(
            zeile,
            muster,
            q,
        ) by {
            if q > ab {
                assert(suchbeginn(s, m, ab + 1, s.len() as int) <= q);
            }
        }
    }
}

proof fn lemma_eindeutig_ab(zeile: Seq<u8>, muster: Seq<u8>, ab: int, s: Seq<int>)
    requires
        muster.len() > 0,
        0 <= ab,
        ist_trefferfolge_ab(zeile, muster, ab, s),
    ensures
        s == vorkommen_ab(zeile, muster, ab),
    decreases zeile.len() - ab,
{
    let m = muster.len() as int;
    if ab + m > zeile.len() {
        if s.len() > 0 {
            assert(suchbeginn(s, m, ab, 0) <= s[0]);
            assert(kommt_vor(zeile, muster, s[0]));
        }
        assert(s =~= vorkommen_ab(zeile, muster, ab));
    } else if kommt_vor(zeile, muster, ab) {
        if s.len() == 0 {
            assert(suchbeginn(s, m, ab, 0) <= ab);
        }
        assert(suchbeginn(s, m, ab, 0) <= s[0]);
        assert(s[0] == ab);
        let rest = s.drop_first();
        assert forall|k: int| 0 <= k <= rest.len() implies #[trigger] suchbeginn(
            rest,
            m,
            ab + m,
            k,
        ) == suchbeginn(s, m, ab, k + 1) by {
            if k >= 1 {
                assert(rest[k - 1] == s[k]);
            }
        }
        assert forall|k: int| 0 <= k < rest.len() implies kommt_vor(
            zeile,
            muster,
            #[trigger] rest[k],
        ) by {
            assert(rest[k] == s[k + 1]);
        }
        assert forall|k: int| 0 <= k < rest.len() implies #[trigger] suchbeginn(rest, m, ab + m, k)
            <= rest[k] by {
            assert(rest[k] == s[k + 1]);
            assert(suchbeginn(s, m, ab, k + 1) <= s[k + 1]);
        }
        assert forall|k: int, q: int|
            #![trigger suchbeginn(rest, m, ab + m, k), kommt_vor(zeile, muster, q)]
            0 <= k < rest.len() && suchbeginn(rest, m, ab + m, k) <= q < rest[k] implies !kommt_vor(
            zeile,
            muster,
            q,
        ) by {
            assert(rest[k] == s[k + 1]);
            assert(suchbeginn(s, m, ab, k + 1) <= q);
        }
        assert(suchbeginn(rest, m, ab + m, rest.len() as int) == suchbeginn(
            s,
            m,
            ab,
            s.len() as int,
        ));
        lemma_eindeutig_ab(zeile, muster, ab + m, rest);
        assert(s =~= seq![ab] + rest);
    } else {
        assert forall|k: int| 0 <= k <= s.len() implies #[trigger] suchbeginn(s, m, ab + 1, k) == (
        if k == 0 {
            ab + 1
        } else {
            suchbeginn(s, m, ab, k)
        }) by {}
        if s.len() > 0 {
            assert(suchbeginn(s, m, ab, 0) <= s[0]);
            assert(kommt_vor(zeile, muster, s[0]));
        }
        assert forall|k: int| 0 <= k < s.len() implies #[trigger] suchbeginn(s, m, ab + 1, k)
            <= s[k] by {
            assert(suchbeginn(s, m, ab, k) <= s[k]);
        }
        assert forall|k: int, q: int|
            #![trigger suchbeginn(s, m, ab + 1, k), kommt_vor(zeile, muster, q)]
            0 <= k < s.len() && suchbeginn(s, m, ab + 1, k) <= q < s[k] implies !kommt_vor(
            zeile,
            muster,
            q,
        ) by {
            assert(suchbeginn(s, m, ab, k) <= q);
        }
        assert forall|q: int| suchbeginn(s, m, ab + 1, s.len() as int) <= q implies !#[trigger] kommt_vor(
            zeile,
            muster,
            q,
        ) by {
            assert(suchbeginn(s, m, ab, s.len() as int) <= q);
        }
        lemma_eindeutig_ab(zeile, muster, ab + 1, s);
    }
}

/// The offsets that the scan reports are the leftmost non-overlapping
/// occurrences: each is an occurrence under the chosen comparison, it is the
/// first one at or behind the end of the one before, and no occurrence
/// starts behind the end of the last.
pub proof fn lemma_vorkommen_ist_trefferfolge(zeile: Seq<u8>, muster: Seq<u8>, falten: bool)
    requires
        muster.len() > 0,
    ensures
        ist_trefferfolge(zeile, muster, falten, vorkommen(zeile, muster, falten)),
{
    lemma_trefferfolge_ab(gefaltet(zeile, falten), gefaltet(muster, falten), 0);
}

/// No other list of offsets has these three properties: the scan's result is
/// the only one.
pub proof fn lemma_vorkommen_eindeutig(zeile: Seq<u8>, muster: Seq<u8>, falten: bool, s: Seq<int>)
    requires
        muster.len() > 0,
        ist_trefferfolge(zeile, muster, falten, s),
    ensures
        s == vorkommen(zeile, muster, falten),
{
    lemma_eindeutig_ab(gefaltet(zeile, falten), gefaltet(muster, falten), 0, s);
}

/// Without folding the scan is substring search by byte equality: whatever
/// lists the leftmost non-overlapping places at which the line holds the
/// pattern's own bytes lists what the scan reports.
pub proof fn lemma_ohne_faltung_ist_teilstringsuche(zeile: Seq<u8>, muster: Seq<u8>, s: Seq<int>)
    requires
        muster.len() > 0,
        ist_trefferfolge_ab(zeile, muster, 0, s),
    ensures
        s == vorkommen(zeile, muster, false),
        forall|o: int| passt(zeile, muster, false, o) <==> kommt_vor(zeile, muster, o),
{
    lemma_eindeutig_ab(zeile, muster, 0, s);
}

/// Two occurrences that the scan reports never overlap: a later one starts
/// at least a pattern's length behind an earlier one.
pub proof fn lemma_vorkommen_abstand(zeile: Seq<u8>, muster: Seq<u8>, falten: bool, i: int, j: int)
    requires
        muster.len() > 0,
        0 <= i < j < vorkommen(zeile, muster, falten).len(),
    ensures
        vorkommen(zeile, muster, falten)[i] + muster.len() <= vorkommen(zeile, muster, falten)[j],
    decreases j - i,
{
    let s = vorkommen(zeile, muster, falten);
    let m = muster.len() as int;
    lemma_vorkommen_ist_trefferfolge(zeile, muster, falten);
    assert(gefaltet(muster, falten).len() == m);
    assert(suchbeginn(s, m, 0, j) <= s[j]);
    if i < j - 1 {
        lemma_vorkommen_abstand(zeile, muster, falten, i, j - 1);
    }
}

/// Every occurrence that the scan reports lies within the line and is an
/// occurrence under the chosen comparison.
pub proof fn lemma_vorkommen_passt(zeile: Seq<u8>, muster: Seq<u8>, falten: bool, k: int)
    requires
        muster.len() > 0,
        0 <= k < vorkommen(zeile, muster, falten).len(),
    ensures
        0 <= vorkommen(zeile, muster, falten)[k],
        vorkommen(zeile, muster, falten)[k] + muster.len() <= zeile.len(),
        passt(zeile, muster, falten, vorkommen(zeile, muster, falten)[k]),
{
    lemma_vorkommen_ist_trefferfolge(zeile, muster, falten);
    assert(gefaltet(muster, falten).len() == muster.len());
    assert(gefaltet(zeile, falten).len() == zeile.len());
}

} // verus!
