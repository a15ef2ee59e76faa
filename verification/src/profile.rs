//! Reassembly of an embedded color profile that was split across
//! size-limited container segments.
//!
//! Each relevant segment carries a one-based sequence index, the declared
//! total number of chunks, and a payload. Reassembly collects the chunks,
//! stops once the declared total has been collected, checks that all
//! collected chunks agree on the total and that their indices are exactly
//! `1..=total` (no gap, no duplicate), and concatenates the payloads in
//! index order — the arrival order of the segments does not matter.

use vstd::prelude::*;
use vstd::seq_lib::*;
use vstd::relations::*;
use vstd::multiset::*;
use vstd::arithmetic::div_mod::lemma_div_denominator;
use crate::format::str_eq;

verus! {

/// Why a profile could not be reassembled.
#[derive(Clone, Copy, PartialEq, Eq, Structural, Debug)]
pub enum ProfileError {
    /// Two collected chunks declared different totals.
    TotalMismatch { expected: u8, found: u8 },
    /// A chunk declared that the profile consists of zero chunks.
    InvalidTotal,
    /// The segments ran out before the declared total was collected.
    MissingChunks { missing: u8, total: u8 },
    /// The collected indices are not exactly `1..=total`: at some position
    /// of the sorted index sequence, `expected` was wanted but `found` was
    /// there.
    IndexMismatch { expected: u8, found: u8 },
}

/// The character for one decimal digit.
pub open spec fn digit_char(d: int) -> char {
    if d == 0 {
        '0'
    } else if d == 1 {
        '1'
    } else if d == 2 {
        '2'
    } else if d == 3 {
        '3'
    } else if d == 4 {
        '4'
    } else if d == 5 {
        '5'
    } else if d == 6 {
        '6'
    } else if d == 7 {
        '7'
    } else if d == 8 {
        '8'
    } else {
        '9'
    }
}

/// The decimal rendering of a non-negative number.
pub open spec fn spec_decimal(n: int) -> Seq<char>
    decreases n,
{
    if n < 10 {
        seq![digit_char(n)]
    } else {
        spec_decimal(n / 10) + seq![digit_char(n % 10)]
    }
}

fn digit_str(d: u8) -> (r: &'static str)
    requires
        d < 10,
    ensures
        r@ == seq![digit_char(d as int)],
{
    proof {
        reveal_strlit("0");
        reveal_strlit("1");
        reveal_strlit("2");
        reveal_strlit("3");
        reveal_strlit("4");
        reveal_strlit("5");
        reveal_strlit("6");
        reveal_strlit("7");
        reveal_strlit("8");
        reveal_strlit("9");
    }
    let r = if d == 0 {
        "0"
    } else if d == 1 {
        "1"
    } else if d == 2 {
        "2"
    } else if d == 3 {
        "3"
    } else if d == 4 {
        "4"
    } else if d == 5 {
        "5"
    } else if d == 6 {
        "6"
    } else if d == 7 {
        "7"
    } else if d == 8 {
        "8"
    } else {
        "9"
    };
    proof {
        assert(r@ =~= seq![digit_char(d as int)]);
    }
    r
}

/// Renders a number in decimal.
fn decimal_string(n: u8) -> (r: String)
    ensures
        r@ == spec_decimal(n as int),
{
    let mut s = String::new();
    if n >= 100 {
        s.append(digit_str(n / 100));
        s.append(digit_str((n / 10) % 10));
        s.append(digit_str(n % 10));
        proof {
            assert(spec_decimal(n as int) == spec_decimal(n as int / 10) + seq![
                digit_char(n as int % 10),
            ]);
            assert(n as int / 10 >= 10);
            assert(spec_decimal(n as int / 10) == spec_decimal(n as int / 10 / 10) + seq![
                digit_char(n as int / 10 % 10),
            ]);
            lemma_div_denominator(n as int, 10, 10);
            assert(n as int / 10 / 10 == n as int / 100);
            assert(n as int / 100 < 10);
            assert(spec_decimal(n as int / 100) == seq![digit_char(n as int / 100)]);
            assert(s@ =~= spec_decimal(n as int));
        }
    } else if n >= 10 {
        s.append(digit_str(n / 10));
        s.append(digit_str(n % 10));
        proof {
            assert(n as int / 10 < 10);
            assert(spec_decimal(n as int) == spec_decimal(n as int / 10) + seq![
                digit_char(n as int % 10),
            ]);
            assert(spec_decimal(n as int / 10) == seq![digit_char(n as int / 10)]);
            assert(s@ =~= spec_decimal(n as int));
        }
    } else {
        s.append(digit_str(n));
        proof {
            assert(s@ =~= spec_decimal(n as int));
        }
    }
    s
}

impl ProfileError {
    /// The wording of this failure.
    pub open spec fn spec_message(&self) -> Seq<char> {
        match *self {
            ProfileError::TotalMismatch { expected, found } => {
                "failed to read ICC profile: different totals in two chunks (expected "@
                    + spec_decimal(expected as int) + " found "@ + spec_decimal(found as int)
                    + ")"@
            },
            ProfileError::InvalidTotal => {
                "failed to read ICC profile: a chunk declares a total of 0"@
            },
            ProfileError::MissingChunks { missing, total } => {
                "failed to read ICC profile: "@ + spec_decimal(missing as int) + (if missing == 1 {
                    " chunk missing out of "@
                } else {
                    " chunks missing out of "@
                }) + spec_decimal(total as int)
            },
            ProfileError::IndexMismatch { expected, found } => {
                "failed to read ICC profile: expected chunk "@ + spec_decimal(expected as int)
                    + " found chunk "@ + spec_decimal(found as int)
            },
        }
    }

    /// Describes the failure, naming the numbers involved.
    pub fn message(&self) -> (r: String)
        ensures
            r@ == self.spec_message(),
    {
        match *self {
            ProfileError::TotalMismatch { expected, found } => {
                let mut s = String::from_str(
                    "failed to read ICC profile: different totals in two chunks (expected ",
                );
                s.append(decimal_string(expected).as_str());
                s.append(" found ");
                s.append(decimal_string(found).as_str());
                s.append(")");
                proof {
                    assert(s@ =~= self.spec_message());
                }
                s
            },
            ProfileError::InvalidTotal => {
                String::from_str("failed to read ICC profile: a chunk declares a total of 0")
            },
            ProfileError::MissingChunks { missing, total } => {
                let mut s = String::from_str("failed to read ICC profile: ");
                s.append(decimal_string(missing).as_str());
                if missing == 1 {
                    s.append(" chunk missing out of ");
                } else {
                    s.append(" chunks missing out of ");
                }
                s.append(decimal_string(total).as_str());
                proof {
                    assert(s@ =~= self.spec_message());
                }
                s
            },
            ProfileError::IndexMismatch { expected, found } => {
                let mut s = String::from_str("failed to read ICC profile: expected chunk ");
                s.append(decimal_string(expected).as_str());
                s.append(" found chunk ");
                s.append(decimal_string(found).as_str());
                proof {
                    assert(s@ =~= self.spec_message());
                }
                s
            },
        }
    }
}

/// Whether `c` is `l` or its ASCII uppercase form; `l` is a lowercase
/// letter.
pub open spec fn matches_lower(c: char, l: char) -> bool {
    c == l || c as int == l as int - 32
}

/// Whether the characters spell `srgb` at position `i`, in any case.
pub open spec fn srgb_at(s: Seq<char>, i: int) -> bool {
    &&& matches_lower(s[i], 's')
    &&& matches_lower(s[i + 1], 'r')
    &&& matches_lower(s[i + 2], 'g')
    &&& matches_lower(s[i + 3], 'b')
}

/// Whether a profile description, lowercased, contains `srgb`.
pub open spec fn spec_contains_srgb(s: Seq<char>) -> bool {
    exists|i: int| 0 <= i && i + 4 <= s.len() && #[trigger] srgb_at(s, i)
}

/// The descriptions under which a profile counts as sRGB without further
/// looking: the names of well-known compact sRGB profiles.
pub open spec fn known_srgb_name(s: Seq<char>) -> bool {
    ||| s == "c2"@
    ||| s == "sRGBz"@
    ||| s == "z"@
    ||| s == "nRGB"@
    ||| s == "uRGB"@
    ||| s == "sRGB"@
    ||| s == "nGry"@
    ||| s == "uGry"@
    ||| s == "sGry"@
}

/// Whether a profile's description says the profile is (close enough to)
/// sRGB: a well-known compact profile name, or any description that
/// contains `srgb` in any case. A profile without a description is not
/// recognized.
pub open spec fn spec_is_srgb_description(desc: Option<Seq<char>>) -> bool {
    match desc {
        Some(s) => known_srgb_name(s) || spec_contains_srgb(s),
        None => false,
    }
}

fn char_matches_lower(c: char, l: char) -> (r: bool)
    requires
        97 <= l as int <= 122,
    ensures
        r == matches_lower(c, l),
{
    c == l || (c as u32) + 32 == (l as u32)
}

/// Decides from a color profile's description text whether the profile
/// is sRGB (or the matching gray profile), so that no color transform is
/// needed.
#[verifier::loop_isolation(false)]
pub fn is_srgb_description(desc: Option<&str>) -> (r: bool)
    ensures
        r == spec_is_srgb_description(match desc {
            Some(d) => Some(d@),
            None => None,
        }),
{
    let d = match desc {
        Some(d) => d,
        None => {
            return false;
        },
    };
    if str_eq(d, "c2") || str_eq(d, "sRGBz") || str_eq(d, "z") || str_eq(d, "nRGB") || str_eq(
        d,
        "uRGB",
    ) || str_eq(d, "sRGB") || str_eq(d, "nGry") || str_eq(d, "uGry") || str_eq(d, "sGry") {
        return true;
    }
    let n = d.unicode_len();
    if n < 4 {
        proof {
            assert(!spec_contains_srgb(d@));
        }
        return false;
    }
    let mut i: usize = 0;
    while i <= n - 4
        invariant
            n == d@.len(),
            n >= 4,
            i <= n - 3,
            forall|j: int| 0 <= j < i ==> !srgb_at(d@, j),
        decreases n - i,
    {
        if char_matches_lower(d.get_char(i), 's') && char_matches_lower(d.get_char(i + 1), 'r')
            && char_matches_lower(d.get_char(i + 2), 'g') && char_matches_lower(
            d.get_char(i + 3),
            'b',
        ) {
            proof {
                assert(srgb_at(d@, i as int));
            }
            return true;
        }
        i = i + 1;
    }
    proof {
        assert(forall|j: int| 0 <= j && j + 4 <= d@.len() ==> !srgb_at(d@, j));
    }
    false
}

/// One parsed chunk of the split profile.
pub struct Chunk {
    pub index: u8,
    pub total: u8,
    pub payload: Seq<u8>,
}

/// The marker bytes that announce a profile-carrying segment:
/// `ICC_PROFILE` followed by a NUL.
pub open spec fn profile_marker() -> Seq<u8> {
    seq![0x49u8, 0x43, 0x43, 0x5f, 0x50, 0x52, 0x4f, 0x46, 0x49, 0x4c, 0x45, 0x00]
}

/// A segment is relevant when it starts with the profile marker and still
/// has bytes beyond the index and total fields.
pub open spec fn segment_relevant(s: Seq<u8>) -> bool {
    s.len() > 14 && s.take(12) == profile_marker()
}

/// The chunk a relevant segment carries: index at offset 12, total at
/// offset 13, payload after that.
pub open spec fn segment_chunk(s: Seq<u8>) -> Chunk {
    Chunk { index: s[12], total: s[13], payload: s.skip(14) }
}

/// All chunks carried by a segment sequence, in arrival order.
pub open spec fn chunks_of(segs: Seq<Seq<u8>>) -> Seq<Chunk>
    decreases segs.len(),
{
    if segs.len() == 0 {
        Seq::empty()
    } else {
        chunks_of(segs.drop_last()) + if segment_relevant(segs.last()) {
            seq![segment_chunk(segs.last())]
        } else {
            Seq::empty()
        }
    }
}

/// The indices of a chunk sequence.
pub open spec fn indices_of(cs: Seq<Chunk>) -> Seq<u8> {
    cs.map_values(|c: Chunk| c.index)
}

/// How many chunks are collected before collection stops: the declared
/// total of the first chunk, but at least the first chunk itself, and at
/// most what is there.
pub open spec fn spec_clip(cs: Seq<Chunk>) -> int {
    let want = if cs[0].total >= 1 {
        cs[0].total as int
    } else {
        1
    };
    if cs.len() < want {
        cs.len() as int
    } else {
        want
    }
}

/// Position of the first collected chunk (from `from` on) whose declared
/// total differs from `t`, or -1.
pub open spec fn first_total_mismatch(cs: Seq<Chunk>, t: u8, from: int) -> int
    decreases cs.len() - from,
{
    if from < 0 || from >= cs.len() {
        -1
    } else if cs[from].total != t {
        from
    } else {
        first_total_mismatch(cs, t, from + 1)
    }
}

/// Position of the first place (from `from` on) where a sorted index
/// sequence differs from `from + 1`, `from + 2`, ..., or -1.
pub open spec fn first_index_mismatch(s: Seq<u8>, from: int) -> int
    decreases s.len() - from,
{
    if from < 0 || from >= s.len() {
        -1
    } else if s[from] != from + 1 {
        from
    } else {
        first_index_mismatch(s, from + 1)
    }
}

/// Position of the first chunk with index `k`, or -1.
pub open spec fn find_chunk(cs: Seq<Chunk>, k: u8) -> int
    decreases cs.len(),
{
    if cs.len() == 0 {
        -1
    } else if cs[0].index == k {
        0
    } else {
        let r = find_chunk(cs.drop_first(), k);
        if r == -1 {
            -1
        } else {
            r + 1
        }
    }
}

/// The payloads of the chunks with indices `1..=upto`, concatenated in
/// index order.
pub open spec fn assembled(cs: Seq<Chunk>, upto: int) -> Seq<u8>
    decreases upto,
{
    if upto <= 0 {
        Seq::empty()
    } else {
        assembled(cs, upto - 1) + cs[find_chunk(cs, upto as u8)].payload
    }
}

/// The ascending order used on chunk indices.
pub open spec fn u8_le() -> spec_fn(u8, u8) -> bool {
    |a: u8, b: u8| a <= b
}

/// Plain statement of ascending order, used alongside `sorted_by`.
pub open spec fn sorted_ascending(s: Seq<u8>) -> bool {
    forall|i: int, j: int| 0 <= i < j < s.len() ==> s[i] <= s[j]
}

proof fn lemma_u8_le_total()
    ensures
        total_ordering(u8_le()),
{
    let le = u8_le();
    assert(reflexive(le)) by {
        assert(forall|x: u8| #[trigger] le(x, x));
    }
    assert(transitive(le)) by {
        assert(forall|x: u8, y: u8, z: u8| le(x, y) && #[trigger] le(y, z) ==> #[trigger] le(x, z));
    }
    assert(strongly_connected(le)) by {
        assert(forall|x: u8, y: u8| #[trigger] le(x, y) || #[trigger] le(y, x));
    }
}

/// What reassembly returns for a given segment sequence.
pub open spec fn spec_reassemble(segs: Seq<Seq<u8>>) -> Result<Option<Seq<u8>>, ProfileError> {
    let cs = chunks_of(segs);
    if cs.len() == 0 {
        Ok(None)
    } else {
        let t = cs[0].total;
        let col = cs.take(spec_clip(cs));
        let bad = first_total_mismatch(col, t, 1);
        if bad != -1 {
            Err(ProfileError::TotalMismatch { expected: t, found: col[bad].total })
        } else if t == 0 {
            Err(ProfileError::InvalidTotal)
        } else if col.len() < t {
            Err(ProfileError::MissingChunks { missing: (t - col.len()) as u8, total: t })
        } else {
            let s = indices_of(col).sort_by(u8_le());
            let p = first_index_mismatch(s, 0);
            if p != -1 {
                Err(ProfileError::IndexMismatch { expected: (p + 1) as u8, found: s[p] })
            } else {
                Ok(Some(assembled(col, t as int)))
            }
        }
    }
}

fn is_profile_segment(s: &Vec<u8>) -> (r: bool)
    ensures
        r == segment_relevant(s@),
{
    let r = s.len() > 14 && s[0] == 0x49 && s[1] == 0x43 && s[2] == 0x43 && s[3] == 0x5f && s[4]
        == 0x50 && s[5] == 0x52 && s[6] == 0x4f && s[7] == 0x46 && s[8] == 0x49 && s[9] == 0x4c
        && s[10] == 0x45 && s[11] == 0x00;
    proof {
        if s@.len() > 14 {
            if s@[0] == 0x49 && s@[1] == 0x43 && s@[2] == 0x43 && s@[3] == 0x5f && s@[4] == 0x50
                && s@[5] == 0x52 && s@[6] == 0x4f && s@[7] == 0x46 && s@[8] == 0x49 && s@[9] == 0x4c
                && s@[10] == 0x45 && s@[11] == 0x00 {
                assert(s@.take(12) =~= profile_marker());
            } else {
                assert(s@.take(12) != profile_marker()) by {
                    if s@.take(12) == profile_marker() {
                        assert(forall|j: int|
                            0 <= j < 12 ==> s@[j] == #[trigger] profile_marker()[j]);
                    }
                }
            }
        }
    }
    r
}

/// The bytes of a segment from `start` on.
fn tail_bytes(s: &Vec<u8>, start: usize) -> (r: Vec<u8>)
    requires
        start <= s@.len(),
    ensures
        r@ == s@.skip(start as int),
{
    let mut out: Vec<u8> = Vec::new();
    let mut i: usize = start;
    while i < s.len()
        invariant
            start <= i <= s@.len(),
            out@ =~= s@.subrange(start as int, i as int),
        decreases s@.len() - i,
    {
        out.push(s[i]);
        proof {
            assert(out@ =~= s@.subrange(start as int, i + 1));
        }
        i = i + 1;
    }
    proof {
        assert(s@.subrange(start as int, s@.len() as int) =~= s@.skip(start as int));
    }
    out
}

/// Two sequences sorted ascending with the same multiset are the same
/// sequence.
proof fn lemma_sorted_unique(a: Seq<u8>, b: Seq<u8>)
    requires
        sorted_ascending(a),
        sorted_ascending(b),
        a.to_multiset() == b.to_multiset(),
    ensures
        a =~= b,
    decreases a.len(),
{
    a.to_multiset_ensures();
    b.to_multiset_ensures();
    if a.len() == 0 {
        assert(b.to_multiset().len() == 0);
    } else {
        assert(a.to_multiset().len() == b.to_multiset().len());
        assert(b.len() > 0);
        // The heads are both a minimum of the shared multiset.
        assert(a.to_multiset().count(a[0]) > 0);
        assert(b.to_multiset().count(b[0]) > 0);
        assert(a.contains(b[0]));
        assert(b.contains(a[0]));
        let ia = choose|i: int| 0 <= i < a.len() && a[i] == b[0];
        let ib = choose|i: int| 0 <= i < b.len() && b[i] == a[0];
        assert(ia == 0 || a[0] <= a[ia]);
        assert(ib == 0 || b[0] <= b[ib]);
        assert(a[0] == b[0]);
        let a1 = a.remove(0);
        let b1 = b.remove(0);
        assert(a1.to_multiset() =~= a.to_multiset().remove(a[0]));
        assert(b1.to_multiset() =~= b.to_multiset().remove(b[0]));
        assert(a1.to_multiset() == b1.to_multiset());
        assert(sorted_ascending(a1)) by {
            assert(forall|i: int| 0 <= i < a1.len() ==> a1[i] == a[i + 1]);
        }
        assert(sorted_ascending(b1)) by {
            assert(forall|i: int| 0 <= i < b1.len() ==> b1[i] == b[i + 1]);
        }
        lemma_sorted_unique(a1, b1);
        assert forall|i: int| 0 <= i < a.len() implies a[i] == b[i] by {
            if i > 0 {
                assert(a[i] == a1[i - 1]);
                assert(b[i] == b1[i - 1]);
            }
        }
    }
}

/// Sorts index values ascending by repeatedly extracting a minimum.
fn sort_indices(idxs: &Vec<u8>) -> (r: Vec<u8>)
    ensures
        r@ == idxs@.sort_by(u8_le()),
        r@.to_multiset() == idxs@.to_multiset(),
        sorted_ascending(r@),
        r@.len() == idxs@.len(),
{
    let mut rest: Vec<u8> = Vec::new();
    let mut i: usize = 0;
    while i < idxs.len()
        invariant
            i <= idxs@.len(),
            rest@ == idxs@.take(i as int),
        decreases idxs@.len() - i,
    {
        rest.push(idxs[i]);
        proof {
            assert(rest@ =~= idxs@.take(i + 1));
        }
        i = i + 1;
    }
    proof {
        assert(rest@ =~= idxs@);
    }
    let mut out: Vec<u8> = Vec::new();
    proof {
        rest@.to_multiset_ensures();
        out@.to_multiset_ensures();
        assert(out@.to_multiset() =~= Multiset::<u8>::empty()) by {
            assert(forall|y: u8| !out@.contains(y));
            assert(forall|y: u8| out@.to_multiset().count(y) == 0);
        }
        assert(out@.to_multiset().add(rest@.to_multiset()) =~= rest@.to_multiset());
    }
    while rest.len() > 0
        invariant
            out@.to_multiset().add(rest@.to_multiset()) =~= idxs@.to_multiset(),
            out@.len() + rest@.len() == idxs@.len(),
            sorted_ascending(out@),
            forall|a: int, b: int|
                0 <= a < out@.len() && 0 <= b < rest@.len() ==> out@[a] <= rest@[b],
        decreases rest@.len(),
    {
        // Position of a minimal element of `rest`.
        let mut m: usize = 0;
        let mut j: usize = 1;
        while j < rest.len()
            invariant
                m < rest@.len(),
                j <= rest@.len(),
                forall|jj: int| 0 <= jj < j ==> rest@[m as int] <= rest@[jj],
            decreases rest@.len() - j,
        {
            if rest[j] < rest[m] {
                m = j;
            }
            j = j + 1;
        }
        let x = rest[m];
        let ghost old_out = out@;
        let ghost old_rest = rest@;
        out.push(x);
        rest.remove(m);
        proof {
            old_out.to_multiset_ensures();
            old_rest.to_multiset_ensures();
            assert(out@ =~= old_out.push(x));
            assert(rest@ =~= old_rest.remove(m as int));
            assert(out@.to_multiset() =~= old_out.to_multiset().insert(x));
            assert(rest@.to_multiset() =~= old_rest.to_multiset().remove(x));
            assert(old_rest.contains(x));
            assert(old_rest.to_multiset().count(x) > 0);
            assert(out@.to_multiset().add(rest@.to_multiset()) =~= idxs@.to_multiset()) by {
                assert forall|y: u8|
                    out@.to_multiset().add(rest@.to_multiset()).count(y)
                        == idxs@.to_multiset().count(y) by {
                    assert(old_out.to_multiset().add(old_rest.to_multiset()).count(y)
                        == idxs@.to_multiset().count(y));
                }
            }
            assert(sorted_ascending(out@)) by {
                assert(forall|a: int| 0 <= a < old_out.len() ==> out@[a] == old_out[a]);
                assert(out@[out@.len() - 1] == x);
            }
            rest@.to_multiset_ensures();
            assert forall|a: int, b: int|
                0 <= a < out@.len() && 0 <= b < rest@.len() implies out@[a] <= rest@[b] by {
                assert(rest@.to_multiset().count(rest@[b]) > 0);
                assert(old_rest.to_multiset().count(rest@[b]) > 0);
                assert(old_rest.contains(rest@[b]));
                let jj = choose|jj: int| 0 <= jj < old_rest.len() && old_rest[jj] == rest@[b];
                assert(x <= old_rest[jj]);
            }
        }
    }
    proof {
        out@.to_multiset_ensures();
        rest@.to_multiset_ensures();
        assert(rest@ =~= Seq::<u8>::empty());
        assert(rest@.to_multiset() =~= Multiset::<u8>::empty());
        assert forall|y: u8| out@.to_multiset().count(y) == idxs@.to_multiset().count(y) by {
            assert(out@.to_multiset().add(rest@.to_multiset()).count(y)
                == idxs@.to_multiset().count(y));
        }
        assert(out@.to_multiset() =~= idxs@.to_multiset());
        let s = idxs@.sort_by(u8_le());
        lemma_u8_le_total();
        idxs@.lemma_sort_by_ensures(u8_le());
        assert(sorted_ascending(s)) by {
            let le = u8_le();
            assert forall|i: int, j: int| 0 <= i < j < s.len() implies s[i] <= s[j] by {
                assert(le(s[i], s[j]));
            }
        }
        lemma_sorted_unique(out@, s);
    }
    out
}

proof fn lemma_first_total_mismatch_none(cs: Seq<Chunk>, t: u8, from: int)
    requires
        0 <= from,
        forall|j: int| from <= j < cs.len() ==> (#[trigger] cs[j]).total == t,
    ensures
        first_total_mismatch(cs, t, from) == -1,
    decreases cs.len() - from,
{
    if from < cs.len() {
        lemma_first_total_mismatch_none(cs, t, from + 1);
    }
}

proof fn lemma_first_total_mismatch_at(cs: Seq<Chunk>, t: u8, from: int, p: int)
    requires
        0 <= from <= p < cs.len(),
        forall|j: int| from <= j < p ==> (#[trigger] cs[j]).total == t,
        cs[p].total != t,
    ensures
        first_total_mismatch(cs, t, from) == p,
    decreases p - from,
{
    if from < p {
        lemma_first_total_mismatch_at(cs, t, from + 1, p);
    }
}

proof fn lemma_first_index_mismatch_none(s: Seq<u8>, from: int)
    requires
        0 <= from,
        forall|j: int| from <= j < s.len() ==> #[trigger] s[j] == j + 1,
    ensures
        first_index_mismatch(s, from) == -1,
    decreases s.len() - from,
{
    if from < s.len() {
        lemma_first_index_mismatch_none(s, from + 1);
    }
}

proof fn lemma_first_index_mismatch_at(s: Seq<u8>, from: int, p: int)
    requires
        0 <= from <= p < s.len(),
        forall|j: int| from <= j < p ==> #[trigger] s[j] == j + 1,
        s[p] != p + 1,
    ensures
        first_index_mismatch(s, from) == p,
    decreases p - from,
{
    if from < p {
        lemma_first_index_mismatch_at(s, from + 1, p);
    }
}

proof fn lemma_find_chunk_at(cs: Seq<Chunk>, k: u8, p: int)
    requires
        0 <= p < cs.len(),
        cs[p].index == k,
        forall|j: int| 0 <= j < p ==> (#[trigger] cs[j]).index != k,
    ensures
        find_chunk(cs, k) == p,
    decreases cs.len(),
{
    if p == 0 {
    } else {
        assert(cs[0].index != k);
        let tail = cs.drop_first();
        assert(forall|j: int| 0 <= j < tail.len() ==> tail[j] == cs[j + 1]);
        lemma_find_chunk_at(tail, k, p - 1);
    }
}

/// `chunks_of` of a prefix is a prefix of `chunks_of` of the whole.
proof fn lemma_chunks_of_prefix(segs: Seq<Seq<u8>>, i: int)
    requires
        0 <= i <= segs.len(),
    ensures
        chunks_of(segs.take(i)).len() <= chunks_of(segs).len(),
        forall|j: int|
            0 <= j < chunks_of(segs.take(i)).len() ==> #[trigger] chunks_of(segs)[j] == chunks_of(
                segs.take(i),
            )[j],
    decreases segs.len() - i,
{
    if i == segs.len() {
        assert(segs.take(i) =~= segs);
    } else {
        assert(segs.take(i + 1).drop_last() =~= segs.take(i));
        assert(segs.take(i + 1).last() == segs[i]);
        lemma_chunks_of_prefix(segs, i + 1);
    }
}

/// A correct, complete set of chunks: all declare the same total, there
/// are exactly that many of them, and their indices all lie in
/// `1..=total` without repetition.
pub open spec fn complete_set(cs: Seq<Chunk>) -> bool {
    &&& cs.len() > 0
    &&& cs[0].total >= 1
    &&& cs.len() == cs[0].total as int
    &&& forall|i: int| 0 <= i < cs.len() ==> (#[trigger] cs[i]).total == cs[0].total
    &&& forall|i: int| 0 <= i < cs.len() ==> 1 <= (#[trigger] cs[i]).index <= cs[0].total
    &&& forall|i: int, j: int|
        0 <= i < j < cs.len() ==> (#[trigger] cs[i]).index != (#[trigger] cs[j]).index
}

proof fn lemma_find_chunk_props(cs: Seq<Chunk>, k: u8)
    ensures
        find_chunk(cs, k) == -1 ==> forall|i: int|
            0 <= i < cs.len() ==> (#[trigger] cs[i]).index != k,
        find_chunk(cs, k) != -1 ==> 0 <= find_chunk(cs, k) < cs.len() && cs[find_chunk(
            cs,
            k,
        )].index == k,
    decreases cs.len(),
{
    if cs.len() > 0 && cs[0].index != k {
        let tail = cs.drop_first();
        lemma_find_chunk_props(tail, k);
        assert(forall|i: int| 0 <= i < tail.len() ==> #[trigger] tail[i] == cs[i + 1]);
        if find_chunk(cs, k) == -1 {
            assert forall|i: int| 0 <= i < cs.len() implies (#[trigger] cs[i]).index != k by {
                if i > 0 {
                    assert(tail[i - 1] == cs[i]);
                    assert(tail[i - 1].index != k);
                }
            }
        }
    }
}

/// In two chunk sequences holding the same chunks, each with distinct
/// indices, the chunk found for an index carries the same payload.
proof fn lemma_find_chunk_same(c1: Seq<Chunk>, c2: Seq<Chunk>, k: u8)
    requires
        c1.to_multiset() == c2.to_multiset(),
        forall|i: int, j: int|
            0 <= i < j < c1.len() ==> (#[trigger] c1[i]).index != (#[trigger] c1[j]).index,
        find_chunk(c1, k) != -1,
    ensures
        find_chunk(c2, k) != -1,
        c2[find_chunk(c2, k)] == c1[find_chunk(c1, k)],
{
    c1.to_multiset_ensures();
    c2.to_multiset_ensures();
    lemma_find_chunk_props(c1, k);
    lemma_find_chunk_props(c2, k);
    let f1 = find_chunk(c1, k);
    let x = c1[f1];
    assert(c1.contains(x));
    assert(c2.to_multiset().count(x) > 0);
    assert(c2.contains(x));
    let j2 = choose|j: int| 0 <= j < c2.len() && c2[j] == x;
    assert(c2[j2].index == k);
    assert(find_chunk(c2, k) != -1);
    let f2 = find_chunk(c2, k);
    let y = c2[f2];
    assert(c2.contains(y));
    assert(c1.to_multiset().count(y) > 0);
    assert(c1.contains(y));
    let j1 = choose|j: int| 0 <= j < c1.len() && c1[j] == y;
    assert(c1[j1].index == k);
    assert(j1 == f1);
}

proof fn lemma_assembled_same(c1: Seq<Chunk>, c2: Seq<Chunk>, upto: int)
    requires
        c1.to_multiset() == c2.to_multiset(),
        forall|i: int, j: int|
            0 <= i < j < c1.len() ==> (#[trigger] c1[i]).index != (#[trigger] c1[j]).index,
        forall|k: int| 1 <= k <= upto ==> #[trigger] find_chunk(c1, k as u8) != -1,
        upto <= 255,
    ensures
        assembled(c1, upto) == assembled(c2, upto),
    decreases upto,
{
    if upto > 0 {
        lemma_assembled_same(c1, c2, upto - 1);
        lemma_find_chunk_same(c1, c2, upto as u8);
    }
}

proof fn lemma_strictly_increasing_exact(s: Seq<u8>, p: int)
    requires
        sorted_ascending(s),
        forall|i: int, j: int| 0 <= i < j < s.len() ==> s[i] != s[j],
        forall|i: int| 0 <= i < s.len() ==> 1 <= #[trigger] s[i] <= s.len(),
        0 <= p < s.len(),
    ensures
        s[p] == p + 1,
{
    // Below p there is no room: values are distinct, ordered, and at least 1.
    assert forall|q: int| 0 <= q < s.len() implies s[q] >= q + 1 by {
        lemma_strict_lower(s, q);
    }
    // Above p there is no room either: values are at most the length.
    assert forall|q: int| 0 <= q < s.len() implies s[q] <= q + 1 by {
        lemma_strict_upper(s, q);
    }
}

proof fn lemma_strict_lower(s: Seq<u8>, q: int)
    requires
        sorted_ascending(s),
        forall|i: int, j: int| 0 <= i < j < s.len() ==> s[i] != s[j],
        forall|i: int| 0 <= i < s.len() ==> 1 <= #[trigger] s[i] <= s.len(),
        0 <= q < s.len(),
    ensures
        s[q] >= q + 1,
    decreases q,
{
    if q > 0 {
        lemma_strict_lower(s, q - 1);
        assert(s[q - 1] <= s[q]);
        assert(s[q - 1] != s[q]);
    }
}

proof fn lemma_strict_upper(s: Seq<u8>, q: int)
    requires
        sorted_ascending(s),
        forall|i: int, j: int| 0 <= i < j < s.len() ==> s[i] != s[j],
        forall|i: int| 0 <= i < s.len() ==> 1 <= #[trigger] s[i] <= s.len(),
        0 <= q < s.len(),
    ensures
        s[q] <= q + 1,
    decreases s.len() - q,
{
    if q < s.len() - 1 {
        lemma_strict_upper(s, q + 1);
        assert(s[q] <= s[q + 1]);
        assert(s[q] != s[q + 1]);
    }
}

/// What reassembly yields on a complete set: every index from 1 up is
/// found, the index walk finds no mismatch, and the output is the
/// concatenation in index order.
proof fn lemma_complete_set_ok(segs: Seq<Seq<u8>>)
    requires
        complete_set(chunks_of(segs)),
    ensures
        spec_reassemble(segs) == Ok::<Option<Seq<u8>>, ProfileError>(
            Some(assembled(chunks_of(segs), chunks_of(segs)[0].total as int)),
        ),
        forall|k: int|
            1 <= k <= chunks_of(segs)[0].total as int ==> #[trigger] find_chunk(
                chunks_of(segs),
                k as u8,
            ) != -1,
{
    let cs = chunks_of(segs);
    let t = cs[0].total;
    assert(spec_clip(cs) == cs.len());
    let col = cs.take(spec_clip(cs));
    assert(col =~= cs);
    lemma_first_total_mismatch_none(col, t, 1);
    let idxs = indices_of(cs);
    let s = idxs.sort_by(u8_le());
    lemma_u8_le_total();
    idxs.lemma_sort_by_ensures(u8_le());
    idxs.to_multiset_ensures();
    s.to_multiset_ensures();
    assert(s.len() == idxs.len()) by {
        assert(s.to_multiset().len() == idxs.to_multiset().len());
    }
    assert(sorted_ascending(s)) by {
        let le = u8_le();
        assert forall|i: int, j: int| 0 <= i < j < s.len() implies s[i] <= s[j] by {
            assert(le(s[i], s[j]));
        }
    }
    // The index values of a complete set are distinct, so the sorted
    // sequence is strictly increasing, stays within 1..=len, and must be
    // exactly 1, 2, 3, ...
    assert(idxs.no_duplicates()) by {
        assert(forall|i: int| 0 <= i < cs.len() ==> idxs[i] == (#[trigger] cs[i]).index);
    }
    idxs.lemma_multiset_has_no_duplicates();
    s.lemma_multiset_has_no_duplicates_conv();
    assert forall|i: int| 0 <= i < s.len() implies 1 <= #[trigger] s[i] <= s.len() by {
        assert(s.to_multiset().count(s[i]) > 0);
        assert(idxs.contains(s[i]));
        let j = choose|j: int| 0 <= j < idxs.len() && idxs[j] == s[i];
        assert(idxs[j] == (cs[j]).index);
    }
    assert forall|p: int| 0 <= p < s.len() implies #[trigger] s[p] == p + 1 by {
        lemma_strictly_increasing_exact(s, p);
    }
    lemma_first_index_mismatch_none(s, 0);
    assert forall|k: int| 1 <= k <= t as int implies #[trigger] find_chunk(cs, k as u8) != -1 by {
        assert(s[k - 1] == k);
        assert(s.to_multiset().count(k as u8) > 0);
        assert(idxs.contains(k as u8));
        let j = choose|j: int| 0 <= j < idxs.len() && idxs[j] == k as u8;
        assert(cs[j].index == k as u8);
        lemma_find_chunk_props(cs, k as u8);
    }
}

/// Arrival order does not matter: two segment sequences that carry the
/// same chunks — one of them a correct, complete set — reassemble to the
/// same profile bytes.
pub proof fn lemma_reassemble_order_irrelevant(s1: Seq<Seq<u8>>, s2: Seq<Seq<u8>>)
    requires
        complete_set(chunks_of(s1)),
        chunks_of(s1).to_multiset() == chunks_of(s2).to_multiset(),
    ensures
        spec_reassemble(s1) is Ok,
        spec_reassemble(s1) == spec_reassemble(s2),
{
    let c1 = chunks_of(s1);
    let c2 = chunks_of(s2);
    c1.to_multiset_ensures();
    c2.to_multiset_ensures();
    assert(c1.len() == c2.len()) by {
        assert(c1.to_multiset().len() == c2.to_multiset().len());
    }
    // Membership transfers through the shared multiset.
    assert forall|i: int| 0 <= i < c2.len() implies c1.contains(#[trigger] c2[i]) by {
        assert(c2.contains(c2[i]));
        assert(c1.to_multiset().count(c2[i]) > 0);
    }
    assert forall|i: int| 0 <= i < c1.len() implies c2.contains(#[trigger] c1[i]) by {
        assert(c1.contains(c1[i]));
        assert(c2.to_multiset().count(c1[i]) > 0);
    }
    let t = c1[0].total;
    assert(c2[0].total == t) by {
        let j = choose|j: int| 0 <= j < c1.len() && c1[j] == c2[0];
    }
    // Chunks with distinct indices are distinct values, so the whole
    // sequence has no duplicates, and neither has the permutation.
    assert(c1.no_duplicates());
    c1.lemma_multiset_has_no_duplicates();
    c2.lemma_multiset_has_no_duplicates_conv();
    assert forall|i: int, j: int|
        0 <= i < j < c2.len() implies (#[trigger] c2[i]).index != (#[trigger] c2[j]).index by {
        if c2[i].index == c2[j].index {
            if c2[i] == c2[j] {
                let sub0 = c2.subrange(0, j);
                let sub1 = c2.subrange(j, c2.len() as int);
                assert(c2 =~= sub0 + sub1);
                lemma_multiset_commutative(sub0, sub1);
                sub0.to_multiset_ensures();
                sub1.to_multiset_ensures();
                assert(sub0.contains(c2[i]));
                assert(sub1.contains(c2[j]));
                assert(sub0.to_multiset().count(c2[i]) > 0);
                assert(sub1.to_multiset().count(c2[j]) > 0);
                assert(c2.to_multiset().count(c2[i]) >= 2);
            } else {
                let a = choose|a: int| 0 <= a < c1.len() && c1[a] == c2[i];
                let b = choose|b: int| 0 <= b < c1.len() && c1[b] == c2[j];
                assert(a != b);
                assert(c1[a].index == c1[b].index);
            }
        }
    }
    assert(complete_set(c2)) by {
        assert forall|i: int| 0 <= i < c2.len() implies (#[trigger] c2[i]).total == c2[0].total by {
            let j = choose|j: int| 0 <= j < c1.len() && c1[j] == c2[i];
        }
        assert forall|i: int| 0 <= i < c2.len() implies 1 <= (#[trigger] c2[i]).index
            <= c2[0].total by {
            let j = choose|j: int| 0 <= j < c1.len() && c1[j] == c2[i];
        }
    }
    lemma_complete_set_ok(s1);
    lemma_complete_set_ok(s2);
    lemma_assembled_same(c1, c2, t as int);
}

/// Reassembles a split color profile from its container segments.
///
/// Returns `Ok(None)` when no segment carries the profile marker;
/// `Ok(Some(bytes))` with the payloads concatenated in index order when
/// the collected chunks are consistent; and an error describing the first
/// inconsistency otherwise.
#[verifier::loop_isolation(false)]
pub fn reassemble_profile(segments: &Vec<Vec<u8>>) -> (r: Result<Option<Vec<u8>>, ProfileError>)
    ensures
        ({
            let s = spec_reassemble(segments.deep_view());
            match r {
                Ok(None) => s == Ok::<Option<Seq<u8>>, ProfileError>(None),
                Ok(Some(v)) => s == Ok::<Option<Seq<u8>>, ProfileError>(Some(v@)),
                Err(e) => s == Err::<Option<Seq<u8>>, ProfileError>(e),
            }
        }),
{
    broadcast use group_to_multiset_ensures;

    let ghost sv = segments.deep_view();
    proof {
        assert(forall|j: int| 0 <= j < segments@.len() ==> sv[j] == #[trigger] segments@[j]@);
    }
    let mut col_idx: Vec<u8> = Vec::new();
    let mut col_pay: Vec<Vec<u8>> = Vec::new();
    let mut total: u8 = 0;
    let mut have: bool = false;
    let mut i: usize = 0;
    while i < segments.len()
        invariant
            i <= sv.len(),
            sv == segments.deep_view(),
            sv.len() == segments@.len(),
            forall|j: int| 0 <= j < segments@.len() ==> sv[j] == #[trigger] segments@[j]@,
            have <==> chunks_of(sv.take(i as int)).len() > 0,
            have ==> total == chunks_of(sv.take(i as int))[0].total,
            !have ==> col_idx@.len() == 0,
            !have ==> col_pay@.len() == 0,
            ({
                let cs = chunks_of(sv.take(i as int));
                cs.len() > 0 ==> {
                    &&& col_idx@.len() == spec_clip(cs)
                    &&& col_pay@.len() == spec_clip(cs)
                    &&& forall|j: int|
                        0 <= j < spec_clip(cs) ==> col_idx@[j] == (#[trigger] cs[j]).index
                    &&& forall|j: int|
                        0 <= j < spec_clip(cs) ==> (#[trigger] col_pay@[j])@ == cs[j].payload
                    &&& forall|j: int| 1 <= j < spec_clip(cs) ==> (#[trigger] cs[j]).total == total
                }
            }),
        decreases sv.len() - i,
    {
        let ghost cs_pre = chunks_of(sv.take(i as int));
        proof {
            assert(sv.take(i + 1).drop_last() =~= sv.take(i as int));
            assert(sv.take(i + 1).last() == sv[i as int]);
        }
        let seg = &segments[i];
        let ghost cs_post = chunks_of(sv.take(i + 1));
        if is_profile_segment(seg) {
            proof {
                assert(cs_post =~= cs_pre + seq![segment_chunk(sv[i as int])]);
            }
            let idx = seg[12];
            let tot = seg[13];
            if !have {
                have = true;
                total = tot;
                col_idx.push(idx);
                col_pay.push(tail_bytes(seg, 14));
                proof {
                    assert(cs_pre.len() == 0);
                    assert(cs_post.len() == 1);
                    assert(cs_post[0] == segment_chunk(sv[i as int]));
                    assert(spec_clip(cs_post) == 1);
                    assert(seg@ == sv[i as int]);
                    assert(col_idx@[0] == cs_post[0].index);
                    assert(col_pay@[0]@ == cs_post[0].payload);
                    assert(total == cs_post[0].total);
                }
            } else if col_idx.len() < total as usize {
                if tot != total {
                    proof {
                        let cs = chunks_of(sv);
                        lemma_chunks_of_prefix(sv, i + 1);
                        let p = cs_pre.len() as int;
                        // The whole collected prefix agrees on `total`;
                        // this chunk is the first that does not.
                        assert(total >= 1);
                        assert(spec_clip(cs_pre) == cs_pre.len());
                        assert(cs[0] == cs_post[0]);
                        assert(spec_clip(cs) >= p + 1) by {
                            assert(cs.len() >= cs_post.len());
                            assert(p + 1 <= total as int);
                        }
                        let col = cs.take(spec_clip(cs));
                        assert(forall|j: int|
                            0 <= j < cs_post.len() ==> #[trigger] cs[j] == cs_post[j]);
                        assert(forall|j: int| 1 <= j < p ==> (#[trigger] col[j]).total == total);
                        assert(col[p].total == tot);
                        lemma_first_total_mismatch_at(col, total, 1, p);
                    }
                    return Err(ProfileError::TotalMismatch { expected: total, found: tot });
                }
                col_idx.push(idx);
                col_pay.push(tail_bytes(seg, 14));
                proof {
                    let p = cs_pre.len() as int;
                    assert(cs_post[0] == cs_pre[0]);
                    assert(spec_clip(cs_pre) == p) by {
                        assert(col_idx@.len() - 1 == spec_clip(cs_pre));
                        assert(spec_clip(cs_pre) < total as int);
                    }
                    assert(spec_clip(cs_post) == p + 1) by {
                        assert(cs_post.len() == p + 1);
                        assert(p + 1 <= total as int);
                        assert(total >= 1);
                    }
                    assert(forall|j: int|
                        0 <= j < cs_pre.len() ==> #[trigger] cs_post[j] == cs_pre[j]);
                    assert(cs_post[p] == segment_chunk(sv[i as int]));
                    assert(seg@ == sv[i as int]);
                    assert(col_idx@[p] == cs_post[p].index);
                    assert(col_pay@[p]@ == cs_post[p].payload);
                    assert(cs_post[p].total == total);
                    assert forall|j: int| 0 <= j < spec_clip(cs_post) implies col_idx@[j] == (
                    #[trigger] cs_post[j]).index by {
                        if j < p {
                            assert(col_idx@[j] == cs_pre[j].index);
                        }
                    }
                    assert forall|j: int|
                        0 <= j < spec_clip(cs_post) implies (#[trigger] col_pay@[j])@
                        == cs_post[j].payload by {
                        if j < p {
                            assert(col_pay@[j]@ == cs_pre[j].payload);
                        }
                    }
                    assert forall|j: int| 1 <= j < spec_clip(cs_post) implies (
                    #[trigger] cs_post[j]).total == total by {
                        if j < p {
                            assert(cs_pre[j].total == total);
                        }
                    }
                }
            } else {
                proof {
                    assert(cs_post[0] == cs_pre[0]);
                    assert(spec_clip(cs_post) == spec_clip(cs_pre)) by {
                        assert(cs_pre.len() >= spec_clip(cs_pre));
                        assert(cs_post.len() == cs_pre.len() + 1);
                    }
                    assert(forall|j: int|
                        0 <= j < cs_pre.len() ==> #[trigger] cs_post[j] == cs_pre[j]);
                    assert forall|j: int| 0 <= j < spec_clip(cs_post) implies col_idx@[j] == (
                    #[trigger] cs_post[j]).index by {
                        assert(col_idx@[j] == cs_pre[j].index);
                    }
                    assert forall|j: int|
                        0 <= j < spec_clip(cs_post) implies (#[trigger] col_pay@[j])@
                        == cs_post[j].payload by {
                        assert(col_pay@[j]@ == cs_pre[j].payload);
                    }
                    assert forall|j: int| 1 <= j < spec_clip(cs_post) implies (
                    #[trigger] cs_post[j]).total == total by {
                        assert(cs_pre[j].total == total);
                    }
                }
            }
        } else {
            proof {
                assert(cs_post =~= cs_pre);
            }
        }
        i = i + 1;
    }
    let ghost cs = chunks_of(sv);
    proof {
        assert(sv.take(i as int) =~= sv);
    }
    if !have {
        return Ok(None);
    }
    let ghost col = cs.take(spec_clip(cs));
    proof {
        assert(col =~= cs.take(spec_clip(cs)));
        assert(forall|j: int| 0 <= j < col.len() ==> col[j] == cs[j]);
        lemma_first_total_mismatch_none(col, total, 1);
    }
    if total == 0 {
        return Err(ProfileError::InvalidTotal);
    }
    if col_idx.len() < total as usize {
        let missing = total - (col_idx.len() as u8);
        return Err(ProfileError::MissingChunks { missing, total });
    }
    proof {
        assert(col_idx@.len() == total as int);
        assert(col.len() == total as int);
        assert(col_idx@ =~= indices_of(col));
    }
    // The collected indices, sorted ascending, must be exactly 1..=total.
    let sorted = sort_indices(&col_idx);
    let mut p: usize = 0;
    while p < sorted.len()
        invariant
            p <= sorted@.len(),
            sorted@.len() == total as int,
            sorted@ == indices_of(col).sort_by(u8_le()),
            sorted@.to_multiset() == col_idx@.to_multiset(),
            col_idx@ == indices_of(col),
            forall|j: int| 0 <= j < p ==> #[trigger] sorted@[j] == j + 1,
        decreases sorted@.len() - p,
    {
        let expect = (p as u8) + 1;
        if sorted[p] != expect {
            proof {
                lemma_first_index_mismatch_at(sorted@, 0, p as int);
            }
            return Err(ProfileError::IndexMismatch { expected: expect, found: sorted[p] });
        }
        p = p + 1;
    }
    proof {
        lemma_first_index_mismatch_none(sorted@, 0);
    }
    // Assemble the payloads in index order.
    let mut out: Vec<u8> = Vec::new();
    let mut k: usize = 1;
    while k <= total as usize
        invariant
            1 <= k <= total as usize + 1,
            col.len() == total as int,
            col_idx@.len() == total as int,
            col_pay@.len() == total as int,
            col_idx@ == indices_of(col),
            forall|j: int| 0 <= j < col.len() ==> col_idx@[j] == (#[trigger] col[j]).index,
            forall|j: int| 0 <= j < col.len() ==> (#[trigger] col_pay@[j])@ == col[j].payload,
            sorted@.to_multiset() == col_idx@.to_multiset(),
            forall|j: int| 0 <= j < sorted@.len() ==> #[trigger] sorted@[j] == j + 1,
            sorted@.len() == total as int,
            out@ == assembled(col, k - 1),
        decreases total as int + 1 - k,
    {
        proof {
            sorted@.to_multiset_ensures();
            col_idx@.to_multiset_ensures();
            assert(sorted@[k - 1] == k as int);
            assert(sorted@.contains(k as u8));
            assert(sorted@.to_multiset().count(k as u8) > 0);
            assert(col_idx@.to_multiset().count(k as u8) > 0);
            assert(col_idx@.contains(k as u8));
        }
        // Find the chunk with index k.
        let mut j: usize = 0;
        while col_idx[j] != (k as u8)
            invariant
                j < col_idx@.len(),
                exists|jj: int| j <= jj < col_idx@.len() && col_idx@[jj] == k as u8,
                forall|jj: int| 0 <= jj < j ==> col_idx@[jj] != k as u8,
            decreases col_idx@.len() - j,
        {
            j = j + 1;
        }
        proof {
            assert(col_idx@[j as int] == k as u8);
            lemma_find_chunk_at(col, k as u8, j as int);
        }
        // Append its payload.
        let pay = &col_pay[j];
        let mut b: usize = 0;
        let ghost out_before = out@;
        while b < pay.len()
            invariant
                b <= pay@.len(),
                out@ =~= out_before + pay@.take(b as int),
            decreases pay@.len() - b,
        {
            out.push(pay[b]);
            proof {
                assert(out@ =~= out_before + pay@.take(b + 1));
            }
            b = b + 1;
        }
        proof {
            assert(pay@.take(pay@.len() as int) =~= pay@);
            assert(out@ =~= assembled(col, k - 1) + col[find_chunk(col, k as u8)].payload);
            assert(out@ == assembled(col, k as int));
        }
        k = k + 1;
    }
    Ok(Some(out))
}

} // verus!
