//! The sparse distributed representation: a vector of 2048 bits that holds
//! names as a fuzzy set. A name stands in the set by the bits that its index
//! picks; how many of these bits are set tells how likely the name is in it.

use crate::packets::{sdri_in_range, Packet, Sdri, SDR_BITS};
use vstd::prelude::*;
use vstd::std_specs::cmp::PartialEqSpecImpl;

verus! {

/// Share of set bits above which a representation should forget.
pub const DECOHERENCE_LIMIT: u8 = 40;

/// Share of a name's bits that must be set for the name to count as held.
pub const MATCH_THRESHOLD: u8 = 90;

/// The bits of a representation, kept in a `bitvec::vec::BitVec`.
#[verifier::external_body]
pub struct Bits {
    inner: bitvec::vec::BitVec<usize, bitvec::order::Lsb0>,
}

/// The bits that the vector holds, the first one first.
pub uninterp spec fn bit_contents(bits: Bits) -> Seq<bool>;

impl Clone for Bits {
    /// Calls `BitVec::clone`: a vector of the same bits.
    #[verifier::external_body]
    fn clone(&self) -> (copy: Self)
        ensures
            bit_contents(copy) == bit_contents(*self),
    {
        Bits { inner: self.inner.clone() }
    }
}

/// Calls `bitvec::vec::BitVec::repeat`: `len` bits, all of them `bit`.
#[verifier::external_body]
fn bits_repeat(bit: bool, len: usize) -> (bits: Bits)
    requires
        len <= SDR_BITS,
    ensures
        bit_contents(bits) == Seq::new(len as nat, |i: int| bit),
{
    Bits { inner: bitvec::vec::BitVec::repeat(bit, len) }
}

/// Calls `bitvec::slice::BitSlice::set`: the bit at `index` becomes `bit`,
/// the others stay.
#[verifier::external_body]
fn bits_set(bits: &mut Bits, index: usize, bit: bool)
    requires
        index < bit_contents(*old(bits)).len(),
    ensures
        bit_contents(*final(bits)) == bit_contents(*old(bits)).update(index as int, bit),
    no_unwind
{
    bits.inner.set(index, bit);
}

/// Reads the bit at `index` through `BitVec`'s `Index`.
#[verifier::external_body]
fn bits_get(bits: &Bits, index: usize) -> (bit: bool)
    requires
        index < bit_contents(*bits).len(),
    ensures
        bit == bit_contents(*bits)[index as int],
{
    bits.inner[index]
}

/// Calls `BitVec`'s `==`: whether the two vectors hold the same bits.
#[verifier::external_body]
fn bits_eq(a: &Bits, b: &Bits) -> (eq: bool)
    ensures
        eq == (bit_contents(*a) == bit_contents(*b)),
{
    a.inner == b.inner
}

/// Calls `rand::Rng::gen_range` on the thread's generator for a number below
/// `bits`. Of the number drawn only its range is known.
#[verifier::external_body]
fn random_bit_index(bits: u16) -> (index: u16)
    requires
        bits > 0,
    ensures
        index < bits,
{
    rand::Rng::gen_range(&mut rand::thread_rng(), 0..bits)
}

/// Whether `after` is `before` with the bits cleared that `picks` names, and
/// no others.
pub open spec fn cleared(before: Seq<bool>, picks: Seq<u16>, after: Seq<bool>) -> bool {
    &&& after.len() == before.len()
    &&& forall|i: int|
        0 <= i < before.len() ==> #[trigger] after[i] == (before[i] && !picks.contains(i as u16))
}

/// Whether `picks` can be the draws of one round of forgetting: as many bit
/// indices as a representation has bits.
pub open spec fn drawn(picks: Seq<u16>) -> bool {
    &&& picks.len() == SDR_BITS
    &&& forall|k: int| 0 <= k < picks.len() ==> picks[k] < SDR_BITS
}

/// Whether `after` is what a round of forgetting can leave of `before`:
/// `before` with the bits cleared that the draws of the round name, and no
/// others. Which indices are drawn is left to chance.
pub open spec fn partly_forgotten(before: Seq<bool>, after: Seq<bool>) -> bool {
    exists|picks: Seq<u16>| drawn(picks) && #[trigger] cleared(before, picks, after)
}

/// A round of forgetting sets no bit.
pub proof fn lemma_forgetting_only_clears(before: Seq<bool>, after: Seq<bool>)
    requires
        partly_forgotten(before, after),
    ensures
        after.len() == before.len(),
        forall|i: int| 0 <= i < before.len() && after[i] ==> before[i],
{
}

/// A round of forgetting on a representation whose bits are all set clears
/// at least the bit of the first draw.
pub proof fn lemma_forgetting_a_full_set(before: Seq<bool>, after: Seq<bool>)
    requires
        before.len() == SDR_BITS,
        forall|i: int| 0 <= i < SDR_BITS ==> before[i],
        partly_forgotten(before, after),
    ensures
        exists|i: int| 0 <= i < SDR_BITS && !after[i],
{
    let picks = choose|picks: Seq<u16>| drawn(picks) && #[trigger] cleared(before, picks, after);
    let first = picks[0];
    assert(picks.contains(first));
    assert(!after[first as int]);
}

/// Whether one of the entries of `sdri` that come before row `rows`, or in
/// row `rows` before column `cols`, is the bit index `i`.
pub open spec fn marks(sdri: Seq<Seq<u16>>, rows: int, cols: int, i: int) -> bool {
    exists|r: int, c: int|
        0 <= r < sdri.len() && 0 <= c < sdri[r].len() && (r < rows || (r == rows && c < cols))
            && #[trigger] sdri[r][c] == i
}

/// Whether `i` is one of the bit indices of `sdri`.
pub open spec fn indexed(sdri: Seq<Seq<u16>>, i: int) -> bool {
    marks(sdri, sdri.len() as int, 0, i)
}

/// Number of entries of `row` whose bit is set in `bits`.
pub open spec fn row_hits(bits: Seq<bool>, row: Seq<u16>) -> nat
    decreases row.len(),
{
    if row.len() == 0 {
        0
    } else {
        row_hits(bits, row.drop_last()) + if bits[row.last() as int] {
            1nat
        } else {
            0nat
        }
    }
}

/// Number of entries of `sdri` whose bit is set in `bits`. An index that
/// stands twice counts twice.
pub open spec fn hits(bits: Seq<bool>, sdri: Seq<Seq<u16>>) -> nat
    decreases sdri.len(),
{
    if sdri.len() == 0 {
        0
    } else {
        hits(bits, sdri.drop_last()) + row_hits(bits, sdri.last())
    }
}

/// Number of entries of `sdri`.
pub open spec fn entries(sdri: Seq<Seq<u16>>) -> nat
    decreases sdri.len(),
{
    if sdri.len() == 0 {
        0
    } else {
        entries(sdri.drop_last()) + sdri.last().len()
    }
}

/// Number of set bits among the first `n`.
pub open spec fn ones(bits: Seq<bool>, n: int) -> nat
    decreases n,
{
    if n <= 0 {
        0
    } else {
        ones(bits, n - 1) + if bits[n - 1] {
            1nat
        } else {
            0nat
        }
    }
}

/// `part` as a percentage of `whole`, rounded down; 0 of nothing.
pub open spec fn percentage(part: nat, whole: nat) -> int {
    if whole == 0 {
        0
    } else {
        (part as int * 100) / (whole as int)
    }
}

/// No more entries of a row hit than the row has.
pub proof fn lemma_row_hits_bound(bits: Seq<bool>, row: Seq<u16>)
    ensures
        row_hits(bits, row) <= row.len(),
    decreases row.len(),
{
    if row.len() > 0 {
        lemma_row_hits_bound(bits, row.drop_last());
    }
}

/// No more entries of an index hit than the index has.
pub proof fn lemma_hits_bound(bits: Seq<bool>, sdri: Seq<Seq<u16>>)
    ensures
        hits(bits, sdri) <= entries(sdri),
    decreases sdri.len(),
{
    if sdri.len() > 0 {
        lemma_hits_bound(bits, sdri.drop_last());
        lemma_row_hits_bound(bits, sdri.last());
    }
}

/// Where every bit of a name is set, all of the name's entries hit.
pub proof fn lemma_all_hit(bits: Seq<bool>, sdri: Seq<Seq<u16>>)
    requires
        forall|r: int, c: int|
            0 <= r < sdri.len() && 0 <= c < sdri[r].len() ==> bits[(#[trigger] sdri[r][c]) as int],
    ensures
        hits(bits, sdri) == entries(sdri),
    decreases sdri.len(),
{
    if sdri.len() > 0 {
        let front = sdri.drop_last();
        assert forall|r: int, c: int| 0 <= r < front.len() && 0 <= c < front[r].len() implies bits[(
        #[trigger] front[r][c]) as int] by {
            assert(front[r][c] == sdri[r][c]);
        }
        lemma_all_hit(bits, front);
        let last = sdri.len() - 1;
        lemma_row_all_hit(bits, sdri, last, sdri[last].len() as int);
        assert(sdri[last].take(sdri[last].len() as int) =~= sdri.last());
    }
}

proof fn lemma_row_all_hit(bits: Seq<bool>, sdri: Seq<Seq<u16>>, r: int, n: int)
    requires
        0 <= r < sdri.len(),
        0 <= n <= sdri[r].len(),
        forall|a: int, c: int|
            0 <= a < sdri.len() && 0 <= c < sdri[a].len() ==> bits[(#[trigger] sdri[a][c]) as int],
    ensures
        row_hits(bits, sdri[r].take(n)) == n,
    decreases n,
{
    if n > 0 {
        lemma_row_all_hit(bits, sdri, r, n - 1);
        let row = sdri[r].take(n);
        assert(row.drop_last() =~= sdri[r].take(n - 1));
        assert(row.last() == sdri[r][n - 1]);
    }
}

fn index_of(packet: Packet) -> (sdri: Sdri)
    ensures
        sdri.deep_view() == packet@.sdri(),
{
    match packet {
        Packet::Request { sdri } => sdri,
        Packet::Response { sdri, .. } => sdri,
    }
}

/// A vector of 2048 bits that holds names as a fuzzy set.
pub struct SparseDistributedRepresentation {
    sdr: Bits,
}

impl Clone for SparseDistributedRepresentation {
    fn clone(&self) -> (copy: Self)
        ensures
            copy@ == self@,
    {
        proof {
            use_type_invariant(self);
        }
        SparseDistributedRepresentation { sdr: self.sdr.clone() }
    }
}

impl SparseDistributedRepresentation {
    /// The bits, the first one first.
    pub closed spec fn view(&self) -> Seq<bool> {
        bit_contents(self.sdr)
    }

    /// A representation has 2048 bits.
    pub open spec fn wf(&self) -> bool {
        self@.len() == SDR_BITS
    }

    /// Every representation is well formed.
    #[verifier::type_invariant]
    spec fn has_all_bits(self) -> bool {
        self.wf()
    }

    /// A representation that holds nothing: no bit is set.
    pub fn new() -> (sdr: Self)
        ensures
            sdr.wf(),
            forall|i: int| 0 <= i < SDR_BITS ==> !sdr@[i],
    {
        SparseDistributedRepresentation { sdr: bits_repeat(false, 2048) }
    }

    fn write(&mut self, sdri: &Sdri, bit: bool)
        requires
            sdri_in_range(sdri.deep_view()),
        ensures
            final(self).wf(),
            forall|i: int|
                0 <= i < SDR_BITS ==> #[trigger] final(self)@[i] == (if indexed(sdri.deep_view(), i) {
                    bit
                } else {
                    old(self)@[i]
                }),
    {
        proof {
            use_type_invariant(&*self);
        }
        let ghost rows = sdri.deep_view();
        let mut r: usize = 0;
        while r < sdri.len()
            invariant
                r <= sdri@.len(),
                rows == sdri.deep_view(),
                sdri_in_range(rows),
                self.wf(),
                forall|i: int|
                    0 <= i < SDR_BITS ==> self@[i] == (if marks(rows, r as int, 0, i) {
                        bit
                    } else {
                        old(self)@[i]
                    }),
            decreases sdri@.len() - r,
        {
            let row = &sdri[r];
            assert(rows[r as int] == row@);
            let mut c: usize = 0;
            while c < row.len()
                invariant
                    r < sdri@.len(),
                    c <= row@.len(),
                    rows == sdri.deep_view(),
                    rows[r as int] == row@,
                    sdri_in_range(rows),
                    self.wf(),
                    forall|i: int|
                        0 <= i < SDR_BITS ==> self@[i] == (if marks(rows, r as int, c as int, i) {
                            bit
                        } else {
                            old(self)@[i]
                        }),
                decreases row@.len() - c,
            {
                let index = row[c];
                assert(rows[r as int][c as int] == index);
                bits_set(&mut self.sdr, index as usize, bit);
                proof {
                    assert forall|i: int| 0 <= i < SDR_BITS implies self@[i] == (if marks(
                        rows,
                        r as int,
                        c + 1,
                        i,
                    ) {
                        bit
                    } else {
                        old(self)@[i]
                    }) by {
                        if marks(rows, r as int, c + 1, i) && !marks(rows, r as int, c as int, i) {
                            let (a, b) = choose|a: int, b: int|
                                0 <= a < rows.len() && 0 <= b < rows[a].len() && (a < r || (a == r
                                    && b < c + 1)) && #[trigger] rows[a][b] == i;
                            assert(a == r && b == c);
                        }
                        if marks(rows, r as int, c as int, i) {
                            let (a, b) = choose|a: int, b: int|
                                0 <= a < rows.len() && 0 <= b < rows[a].len() && (a < r || (a == r
                                    && b < c)) && #[trigger] rows[a][b] == i;
                            assert(rows[a][b] == i && (a < r || (a == r && b < c + 1)));
                        }
                        if i == index {
                            assert(rows[r as int][c as int] == i);
                        }
                    }
                }
                c += 1;
            }
            proof {
                assert forall|i: int| 0 <= i < SDR_BITS implies (marks(rows, r as int, c as int, i)
                    <==> marks(rows, r + 1, 0, i)) by {
                    if marks(rows, r as int, c as int, i) {
                        let (a, b) = choose|a: int, b: int|
                            0 <= a < rows.len() && 0 <= b < rows[a].len() && (a < r || (a == r && b
                                < c)) && #[trigger] rows[a][b] == i;
                        assert(rows[a][b] == i && (a < r + 1 || (a == r + 1 && b < 0)));
                    }
                    if marks(rows, r + 1, 0, i) {
                        let (a, b) = choose|a: int, b: int|
                            0 <= a < rows.len() && 0 <= b < rows[a].len() && (a < r + 1 || (a == r
                                + 1 && b < 0)) && #[trigger] rows[a][b] == i;
                        assert(rows[a][b] == i && (a < r || (a == r && b < c)));
                    }
                }
            }
            r += 1;
        }
    }

    /// Puts the name with the index `sdri` into the set: all of its bits are
    /// set.
    pub fn insert_index(&mut self, sdri: &Sdri)
        requires
            sdri_in_range(sdri.deep_view()),
        ensures
            final(self).wf(),
            forall|i: int|
                0 <= i < SDR_BITS ==> #[trigger] final(self)@[i] == (old(self)@[i] || indexed(
                    sdri.deep_view(),
                    i,
                )),
    {
        self.write(sdri, true);
    }

    /// Takes the name with the index `sdri` out of the set: all of its bits
    /// are cleared.
    pub fn delete_index(&mut self, sdri: &Sdri)
        requires
            sdri_in_range(sdri.deep_view()),
        ensures
            final(self).wf(),
            forall|i: int|
                0 <= i < SDR_BITS ==> #[trigger] final(self)@[i] == (old(self)@[i] && !indexed(
                    sdri.deep_view(),
                    i,
                )),
    {
        self.write(sdri, false);
    }

    /// How much of the name with the index `sdri` the set holds: the
    /// percentage, rounded down, of the entries of the index whose bit is
    /// set; 0 for an index without entries.
    pub fn contains_index(&self, sdri: &Sdri) -> (percent: u8)
        requires
            sdri_in_range(sdri.deep_view()),
            hits(self@, sdri.deep_view()) <= u32::MAX,
        ensures
            percent == percentage(hits(self@, sdri.deep_view()), entries(sdri.deep_view())),
            percent <= 100,
    {
        proof {
            use_type_invariant(&*self);
        }
        let ghost rows = sdri.deep_view();
        let mut found: u32 = 0;
        let mut seen: u128 = 0;
        let mut r: usize = 0;
        while r < sdri.len()
            invariant
                r <= sdri@.len(),
                rows == sdri.deep_view(),
                sdri_in_range(rows),
                self.wf(),
                hits(self@, rows) <= u32::MAX,
                found == hits(self@, rows.take(r as int)),
                seen == entries(rows.take(r as int)),
                seen <= r * usize::MAX,
            decreases sdri@.len() - r,
        {
            let row = &sdri[r];
            let width = row.len();
            assert(rows[r as int] == row@);
            let mut c: usize = 0;
            while c < width
                invariant
                    r < sdri@.len() <= usize::MAX,
                    c <= width == row@.len(),
                    rows == sdri.deep_view(),
                    rows[r as int] == row@,
                    sdri_in_range(rows),
                    self.wf(),
                    hits(self@, rows) <= u32::MAX,
                    found == hits(self@, rows.take(r as int)) + row_hits(self@, row@.take(c as int)),
                    seen == entries(rows.take(r as int)) + c,
                    entries(rows.take(r as int)) <= r * usize::MAX,
                decreases width - c,
            {
                let index = row[c];
                assert(rows[r as int][c as int] == index);
                proof {
                    assert(row@.take(c + 1).drop_last() =~= row@.take(c as int));
                    assert(row@.take(c + 1).last() == index);
                    lemma_hits_take(self@, rows, r as int, c + 1);
                    assert(r * usize::MAX + c < u128::MAX) by (nonlinear_arith)
                        requires
                            r < usize::MAX,
                            c < usize::MAX,
                    ;
                }
                if bits_get(&self.sdr, index as usize) {
                    found += 1;
                }
                seen += 1;
                c += 1;
            }
            proof {
                assert(row@.take(row@.len() as int) =~= row@);
                assert(rows.take(r + 1).drop_last() =~= rows.take(r as int));
                assert(rows.take(r + 1).last() == row@);
                assert(r * usize::MAX + width <= (r + 1) * usize::MAX) by (nonlinear_arith)
                    requires
                        width <= usize::MAX,
                ;
            }
            r += 1;
        }
        proof {
            assert(rows.take(rows.len() as int) =~= rows);
            lemma_hits_bound(self@, rows);
        }
        if seen == 0 {
            0
        } else {
            let percent: u128 = found as u128 * 100 / seen;
            assert(percent <= 100) by (nonlinear_arith)
                requires
                    percent as int == (found as int * 100) / (seen as int),
                    found <= seen,
                    seen > 0,
            ;
            percent as u8
        }
    }

    /// Puts the name of `packet` into the set.
    pub fn insert(&mut self, packet: Packet)
        requires
            sdri_in_range(packet@.sdri()),
        ensures
            final(self).wf(),
            forall|i: int|
                0 <= i < SDR_BITS ==> #[trigger] final(self)@[i] == (old(self)@[i] || indexed(
                    packet@.sdri(),
                    i,
                )),
    {
        let sdri = index_of(packet);
        self.insert_index(&sdri);
    }

    /// How much of the name of `packet` the set holds, as a percentage. The
    /// set is left as it is.
    pub fn contains(&mut self, packet: Packet) -> (percent: u8)
        requires
            sdri_in_range(packet@.sdri()),
            hits(old(self)@, packet@.sdri()) <= u32::MAX,
        ensures
            final(self)@ == old(self)@,
            percent == percentage(hits(old(self)@, packet@.sdri()), entries(packet@.sdri())),
            percent <= 100,
    {
        let sdri = index_of(packet);
        self.contains_index(&sdri)
    }

    /// Takes the name of `packet` out of the set.
    pub fn delete(&mut self, packet: Packet)
        requires
            sdri_in_range(packet@.sdri()),
        ensures
            final(self).wf(),
            forall|i: int|
                0 <= i < SDR_BITS ==> #[trigger] final(self)@[i] == (old(self)@[i] && !indexed(
                    packet@.sdri(),
                    i,
                )),
    {
        let sdri = index_of(packet);
        self.delete_index(&sdri);
    }

    /// Clears the bits that `picks` names, and no others.
    pub fn forget(&mut self, picks: &Vec<u16>)
        requires
            forall|k: int| 0 <= k < picks@.len() ==> picks@[k] < SDR_BITS,
        ensures
            final(self).wf(),
            forall|i: int|
                0 <= i < SDR_BITS ==> #[trigger] final(self)@[i] == (old(self)@[i] && !picks@.contains(
                    i as u16,
                )),
            cleared(old(self)@, picks@, final(self)@),
    {
        proof {
            use_type_invariant(&*self);
        }
        let mut k: usize = 0;
        while k < picks.len()
            invariant
                k <= picks@.len(),
                self.wf(),
                forall|j: int| 0 <= j < picks@.len() ==> picks@[j] < SDR_BITS,
                forall|i: int|
                    0 <= i < SDR_BITS ==> self@[i] == (old(self)@[i] && !picks@.take(
                        k as int,
                    ).contains(i as u16)),
            decreases picks@.len() - k,
        {
            let index = picks[k];
            bits_set(&mut self.sdr, index as usize, false);
            proof {
                let now = picks@.take(k + 1);
                let was = picks@.take(k as int);
                assert(now =~= was.push(index));
                assert forall|i: int| 0 <= i < SDR_BITS implies self@[i] == (old(self)@[i]
                    && !now.contains(i as u16)) by {
                    if was.contains(i as u16) {
                        let j = choose|j: int| 0 <= j < was.len() && was[j] == i as u16;
                        assert(now[j] == i as u16);
                    }
                    if now.contains(i as u16) && !was.contains(i as u16) {
                        let j = choose|j: int| 0 <= j < now.len() && now[j] == i as u16;
                        if j < was.len() {
                            assert(was[j] == i as u16);
                        }
                    }
                    if i == index {
                        assert(now[k as int] == index);
                    }
                }
            }
            k += 1;
        }
        proof {
            assert(picks@.take(picks@.len() as int) =~= picks@);
        }
    }

    /// Forgets part of what the set holds: draws 2048 bit indices at random,
    /// some of them more than once, and clears the bits that they name, and
    /// no others. No bit is set by this.
    pub fn restore(&mut self)
        ensures
            final(self).wf(),
            partly_forgotten(old(self)@, final(self)@),
            forall|i: int| 0 <= i < SDR_BITS && final(self)@[i] ==> old(self)@[i],
    {
        let mut picks: Vec<u16> = Vec::new();
        let mut n: usize = 0;
        while n < 2048
            invariant
                n <= 2048,
                picks@.len() == n,
                forall|k: int| 0 <= k < picks@.len() ==> picks@[k] < SDR_BITS,
            decreases 2048 - n,
        {
            picks.push(random_bit_index(SDR_BITS));
            n += 1;
        }
        self.forget(&picks);
        proof {
            assert(drawn(picks@));
            assert(cleared(old(self)@, picks@, self@));
        }
    }

    /// As `restore`.
    pub fn partially_forget(&mut self)
        ensures
            final(self).wf(),
            partly_forgotten(old(self)@, final(self)@),
            forall|i: int| 0 <= i < SDR_BITS && final(self)@[i] ==> old(self)@[i],
    {
        self.restore();
    }

    /// How full the set is: the percentage, rounded down, of the bits that
    /// are set. The set is left as it is.
    pub fn decoherence(&mut self) -> (percent: u8)
        ensures
            final(self)@ == old(self)@,
            percent == percentage(ones(old(self)@, SDR_BITS as int), SDR_BITS as nat),
            percent <= 100,
    {
        proof {
            use_type_invariant(&*self);
        }
        let mut found: u32 = 0;
        let mut i: usize = 0;
        while i < 2048
            invariant
                i <= 2048,
                self.wf(),
                self@ == old(self)@,
                found == ones(self@, i as int),
                found <= i,
            decreases 2048 - i,
        {
            if bits_get(&self.sdr, i) {
                found += 1;
            }
            i += 1;
        }
        (found * 100 / 2048) as u8
    }

    /// Sets every bit.
    pub fn fill_1s(&mut self)
        ensures
            final(self).wf(),
            forall|i: int| 0 <= i < SDR_BITS ==> final(self)@[i],
    {
        proof {
            use_type_invariant(&*self);
        }
        let mut i: usize = 0;
        while i < 2048
            invariant
                i <= 2048,
                self.wf(),
                forall|k: int| 0 <= k < i ==> self@[k],
            decreases 2048 - i,
        {
            bits_set(&mut self.sdr, i, true);
            i += 1;
        }
    }
}

proof fn lemma_row_hits_take(bits: Seq<bool>, row: Seq<u16>, c: int)
    requires
        0 <= c <= row.len(),
    ensures
        row_hits(bits, row.take(c)) <= row_hits(bits, row),
    decreases row.len(),
{
    if c == row.len() {
        assert(row.take(c) =~= row);
    } else {
        lemma_row_hits_take(bits, row.drop_last(), c);
        assert(row.drop_last().take(c) =~= row.take(c));
    }
}

/// The entries of the first rows and of the beginning of the next hit no
/// more often than all entries do.
proof fn lemma_hits_take(bits: Seq<bool>, rows: Seq<Seq<u16>>, r: int, c: int)
    requires
        0 <= r < rows.len(),
        0 <= c <= rows[r].len(),
    ensures
        hits(bits, rows.take(r)) + row_hits(bits, rows[r].take(c)) <= hits(bits, rows),
    decreases rows.len(),
{
    let front = rows.drop_last();
    if r == rows.len() - 1 {
        assert(rows.take(r) =~= front);
        lemma_row_hits_take(bits, rows[r], c);
    } else {
        lemma_hits_take(bits, front, r, c);
        assert(front.take(r) =~= rows.take(r));
        assert(front[r] == rows[r]);
    }
}

impl PartialEq for SparseDistributedRepresentation {
    fn eq(&self, other: &SparseDistributedRepresentation) -> (eq: bool) {
        bits_eq(&self.sdr, &other.sdr)
    }
}

impl PartialEqSpecImpl for SparseDistributedRepresentation {
    open spec fn obeys_eq_spec() -> bool {
        true
    }

    open spec fn eq_spec(&self, other: &SparseDistributedRepresentation) -> bool {
        self@ == other@
    }
}

/// A name that was put into the set is held in full until something is taken
/// out or forgotten: all of its entries hit.
pub proof fn lemma_inserted_is_contained(before: Seq<bool>, after: Seq<bool>, sdri: Seq<Seq<u16>>)
    requires
        before.len() == SDR_BITS,
        after.len() == SDR_BITS,
        sdri_in_range(sdri),
        forall|i: int| 0 <= i < SDR_BITS ==> after[i] == (before[i] || indexed(sdri, i)),
    ensures
        hits(after, sdri) == entries(sdri),
        entries(sdri) > 0 ==> percentage(hits(after, sdri), entries(sdri)) == 100,
{
    assert forall|r: int, c: int| 0 <= r < sdri.len() && 0 <= c < sdri[r].len() implies after[(
    #[trigger] sdri[r][c]) as int] by {
        let i = sdri[r][c] as int;
        assert(indexed(sdri, i));
    }
    lemma_all_hit(after, sdri);
    let n = entries(sdri) as int;
    if n > 0 {
        assert((n * 100) / n == 100) by (nonlinear_arith)
            requires
                n > 0,
        ;
    }
}

} // verus!
