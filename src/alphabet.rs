//! The alphabet: 32768 primary code units, 128 short code units, and the
//! reverse lookup from a code unit to the word it stands for.
use vstd::prelude::*;
use vstd::relations::injective_on;
use vstd::set_lib::{lemma_int_range, lemma_map_size, lemma_set_intersect_union_lens, set_int_range};

verus! {

/// Number of primary code units (one for each 15-bit word).
pub const LONG_COUNT: usize = 32768;

/// Number of short code units (one for each 7-bit word).
pub const SHORT_COUNT: usize = 128;

/// Length of the reverse table: every alphabet code unit lies below this.
pub const DECODE_LEN: usize = 42183;

/// Entry of the reverse table for a code unit outside the alphabet.
pub const INVALID: u16 = 0xFFFF;

/// The code unit of primary word `i`: the `i`-th code point met when walking
/// the primary ranges in their fixed order.
pub open spec fn long_code(i: int) -> int {
    if i < 20988 {
        19904 + i
    } else if i < 27570 {
        13312 + (i - 20988)
    } else if i < 28735 {
        40960 + (i - 27570)
    } else if i < 29355 {
        5121 + (i - 28735)
    } else if i < 29789 {
        9451 + (i - 29355)
    } else if i < 30192 {
        10224 + (i - 29789)
    } else if i < 30329 {
        9003 + (i - 30192)
    } else if i < 30436 {
        11392 + (i - 30329)
    } else if i < 30539 {
        10765 + (i - 30436)
    } else if i < 30640 {
        10871 + (i - 30539)
    } else if i < 30736 {
        592 + (i - 30640)
    } else if i < 30826 {
        4352 + (i - 30736)
    } else if i < 30914 {
        6176 + (i - 30826)
    } else if i < 30999 {
        5024 + (i - 30914)
    } else if i < 31082 {
        11936 + (i - 30999)
    } else if i < 31157 {
        5792 + (i - 31082)
    } else if i < 31230 {
        4608 + (i - 31157)
    } else if i < 31301 {
        1657 + (i - 31230)
    } else if i < 31368 {
        4888 + (i - 31301)
    } else if i < 31431 {
        10649 + (i - 31368)
    } else if i < 31490 {
        8942 + (i - 31431)
    } else if i < 31547 {
        4824 + (i - 31490)
    } else if i < 31602 {
        1162 + (i - 31547)
    } else if i < 31657 {
        4547 + (i - 31602)
    } else if i < 31712 {
        6624 + (i - 31657)
    } else if i < 31767 {
        10973 + (i - 31712)
    } else if i < 31822 {
        42128 + (i - 31767)
    } else if i < 31876 {
        11568 + (i - 31822)
    } else if i < 31928 {
        6016 + (i - 31876)
    } else if i < 31980 {
        8656 + (i - 31928)
    } else if i < 32028 {
        3585 + (i - 31980)
    } else if i < 32076 {
        8880 + (i - 32028)
    } else if i < 32123 {
        11264 + (i - 32076)
    } else if i < 32170 {
        11312 + (i - 32123)
    } else if i < 32215 {
        4470 + (i - 32170)
    } else if i < 32259 {
        7424 + (i - 32215)
    } else if i < 32302 {
        4304 + (i - 32259)
    } else if i < 32344 {
        6528 + (i - 32302)
    } else if i < 32385 {
        4704 + (i - 32344)
    } else if i < 32426 {
        6272 + (i - 32385)
    } else if i < 32466 {
        6470 + (i - 32426)
    } else if i < 32506 {
        12549 + (i - 32466)
    } else if i < 32545 {
        9216 + (i - 32506)
    } else if i < 32583 {
        1329 + (i - 32545)
    } else if i < 32621 {
        1377 + (i - 32583)
    } else if i < 32659 {
        1920 + (i - 32621)
    } else if i < 32697 {
        4256 + (i - 32659)
    } else if i < 32735 {
        11520 + (i - 32697)
    } else if i < 32768 {
        2308 + (i - 32735)
    } else {
        0
    }
}

/// The code unit of short word `j`: the `j`-th code point met when walking
/// the short ranges in their fixed order.
pub open spec fn short_code(j: int) -> int {
    if j < 37 {
        9143 + j
    } else if j < 72 {
        10025 + (j - 37)
    } else if j < 106 {
        4096 + (j - 72)
    } else if j < 128 {
        7545 + (j - 106)
    } else {
        0
    }
}

/// What a code unit decodes to: the primary word it stands for, the short
/// word it stands for with bit 15 set, or `0xFFFF` outside the alphabet.
pub open spec fn decode_value(c: int) -> int {
    if (19904 <= c && c < 40892) {
        c - 19904
    } else if (13312 <= c && c < 19894) {
        20988 + (c - 13312)
    } else if (40960 <= c && c < 42125) {
        27570 + (c - 40960)
    } else if (5121 <= c && c < 5741) {
        28735 + (c - 5121)
    } else if (9451 <= c && c < 9885) {
        29355 + (c - 9451)
    } else if (10224 <= c && c < 10627) {
        29789 + (c - 10224)
    } else if (9003 <= c && c < 9140) {
        30192 + (c - 9003)
    } else if (11392 <= c && c < 11499) {
        30329 + (c - 11392)
    } else if (10765 <= c && c < 10868) {
        30436 + (c - 10765)
    } else if (10871 <= c && c < 10972) {
        30539 + (c - 10871)
    } else if (592 <= c && c < 688) {
        30640 + (c - 592)
    } else if (4352 <= c && c < 4442) {
        30736 + (c - 4352)
    } else if (6176 <= c && c < 6264) {
        30826 + (c - 6176)
    } else if (5024 <= c && c < 5109) {
        30914 + (c - 5024)
    } else if (11936 <= c && c < 12019) {
        30999 + (c - 11936)
    } else if (5792 <= c && c < 5867) {
        31082 + (c - 5792)
    } else if (4608 <= c && c < 4681) {
        31157 + (c - 4608)
    } else if (1657 <= c && c < 1728) {
        31230 + (c - 1657)
    } else if (4888 <= c && c < 4955) {
        31301 + (c - 4888)
    } else if (10649 <= c && c < 10712) {
        31368 + (c - 10649)
    } else if (8942 <= c && c < 9001) {
        31431 + (c - 8942)
    } else if (4824 <= c && c < 4881) {
        31490 + (c - 4824)
    } else if (1162 <= c && c < 1217) {
        31547 + (c - 1162)
    } else if (4547 <= c && c < 4602) {
        31602 + (c - 4547)
    } else if (6624 <= c && c < 6679) {
        31657 + (c - 6624)
    } else if (10973 <= c && c < 11028) {
        31712 + (c - 10973)
    } else if (42128 <= c && c < 42183) {
        31767 + (c - 42128)
    } else if (11568 <= c && c < 11622) {
        31822 + (c - 11568)
    } else if (6016 <= c && c < 6068) {
        31876 + (c - 6016)
    } else if (8656 <= c && c < 8708) {
        31928 + (c - 8656)
    } else if (3585 <= c && c < 3633) {
        31980 + (c - 3585)
    } else if (8880 <= c && c < 8928) {
        32028 + (c - 8880)
    } else if (11264 <= c && c < 11311) {
        32076 + (c - 11264)
    } else if (11312 <= c && c < 11359) {
        32123 + (c - 11312)
    } else if (4470 <= c && c < 4515) {
        32170 + (c - 4470)
    } else if (7424 <= c && c < 7468) {
        32215 + (c - 7424)
    } else if (4304 <= c && c < 4347) {
        32259 + (c - 4304)
    } else if (6528 <= c && c < 6570) {
        32302 + (c - 6528)
    } else if (4704 <= c && c < 4745) {
        32344 + (c - 4704)
    } else if (6272 <= c && c < 6313) {
        32385 + (c - 6272)
    } else if (6470 <= c && c < 6510) {
        32426 + (c - 6470)
    } else if (12549 <= c && c < 12589) {
        32466 + (c - 12549)
    } else if (9216 <= c && c < 9255) {
        32506 + (c - 9216)
    } else if (1329 <= c && c < 1367) {
        32545 + (c - 1329)
    } else if (1377 <= c && c < 1415) {
        32583 + (c - 1377)
    } else if (1920 <= c && c < 1958) {
        32621 + (c - 1920)
    } else if (4256 <= c && c < 4294) {
        32659 + (c - 4256)
    } else if (11520 <= c && c < 11558) {
        32697 + (c - 11520)
    } else if (2308 <= c && c < 2341) {
        32735 + (c - 2308)
    } else if (9143 <= c && c < 9180) {
        0x8000 + (c - 9143)
    } else if (10025 <= c && c < 10060) {
        0x8000 + 37 + (c - 10025)
    } else if (4096 <= c && c < 4130) {
        0x8000 + 72 + (c - 4096)
    } else if (7545 <= c && c < 7567) {
        0x8000 + 106 + (c - 7545)
    } else {
        0xFFFF
    }
}

/// `d` is the sentinel, or a word whose code unit is `c`.
pub open spec fn inverts_encoding(c: int, d: int) -> bool {
    ||| d == INVALID
    ||| 0 <= d < LONG_COUNT && long_code(d) == c
    ||| 0x8000 <= d < 0x8000 + SHORT_COUNT && short_code(d - 0x8000) == c
}

/// Decoding a primary code unit gives back its word.
pub proof fn lemma_long_code(i: int)
    requires
        0 <= i < LONG_COUNT,
    ensures
        0 <= long_code(i) < DECODE_LEN,
        decode_value(long_code(i)) == i,
{
}

/// Decoding a short code unit gives back its word, tagged with bit 15.
pub proof fn lemma_short_code(j: int)
    requires
        0 <= j < SHORT_COUNT,
    ensures
        0 <= short_code(j) < DECODE_LEN,
        decode_value(short_code(j)) == 0x8000 + j,
{
}

/// Every entry of the reverse table is either the sentinel or the inverse of
/// one of the two encodings.
pub proof fn lemma_decode_value(c: int)
    requires
        0 <= c < DECODE_LEN,
    ensures
        inverts_encoding(c, decode_value(c)),
{
}

/// The three lookup tables of the alphabet.
pub struct Tables {
    pub long_encode: Vec<u16>,
    pub short_encode: Vec<u16>,
    pub decode: Vec<u16>,
}

impl Tables {
    /// The tables hold exactly the alphabet: each encoding table maps a word
    /// to its code unit, and the reverse table maps each code unit back.
    pub open spec fn wf(&self) -> bool {
        &&& self.long_encode@.len() == LONG_COUNT
        &&& self.short_encode@.len() == SHORT_COUNT
        &&& self.decode@.len() == DECODE_LEN
        &&& forall|i: int| 0 <= i < LONG_COUNT ==> self.long_encode@[i] == long_code(i)
        &&& forall|j: int| 0 <= j < SHORT_COUNT ==> self.short_encode@[j] == short_code(j)
        &&& forall|c: int| 0 <= c < DECODE_LEN ==> self.decode@[c] == decode_value(c)
    }

    /// Builds the tables by walking the primary ranges, then the short ones.
    pub fn new() -> (t: Tables)
        ensures
            t.wf(),
    {
        let mut decode: Vec<u16> = vec![INVALID; DECODE_LEN];
        let mut long_encode: Vec<u16> = Vec::with_capacity(LONG_COUNT);
        let mut short_encode: Vec<u16> = Vec::with_capacity(SHORT_COUNT);
        proof {
            reveal(walk_inv);
        }
        walk_primary(&mut long_encode, &mut decode, 19904, 40892);
        walk_primary(&mut long_encode, &mut decode, 13312, 19894);
        walk_primary(&mut long_encode, &mut decode, 40960, 42125);
        walk_primary(&mut long_encode, &mut decode, 5121, 5741);
        walk_primary(&mut long_encode, &mut decode, 9451, 9885);
        walk_primary(&mut long_encode, &mut decode, 10224, 10627);
        walk_primary(&mut long_encode, &mut decode, 9003, 9140);
        walk_primary(&mut long_encode, &mut decode, 11392, 11499);
        walk_primary(&mut long_encode, &mut decode, 10765, 10868);
        walk_primary(&mut long_encode, &mut decode, 10871, 10972);
        walk_primary(&mut long_encode, &mut decode, 592, 688);
        walk_primary(&mut long_encode, &mut decode, 4352, 4442);
        walk_primary(&mut long_encode, &mut decode, 6176, 6264);
        walk_primary(&mut long_encode, &mut decode, 5024, 5109);
        walk_primary(&mut long_encode, &mut decode, 11936, 12019);
        walk_primary(&mut long_encode, &mut decode, 5792, 5867);
        walk_primary(&mut long_encode, &mut decode, 4608, 4681);
        walk_primary(&mut long_encode, &mut decode, 1657, 1728);
        walk_primary(&mut long_encode, &mut decode, 4888, 4955);
        walk_primary(&mut long_encode, &mut decode, 10649, 10712);
        walk_primary(&mut long_encode, &mut decode, 8942, 9001);
        walk_primary(&mut long_encode, &mut decode, 4824, 4881);
        walk_primary(&mut long_encode, &mut decode, 1162, 1217);
        walk_primary(&mut long_encode, &mut decode, 4547, 4602);
        walk_primary(&mut long_encode, &mut decode, 6624, 6679);
        walk_primary(&mut long_encode, &mut decode, 10973, 11028);
        walk_primary(&mut long_encode, &mut decode, 42128, 42183);
        walk_primary(&mut long_encode, &mut decode, 11568, 11622);
        walk_primary(&mut long_encode, &mut decode, 6016, 6068);
        walk_primary(&mut long_encode, &mut decode, 8656, 8708);
        walk_primary(&mut long_encode, &mut decode, 3585, 3633);
        walk_primary(&mut long_encode, &mut decode, 8880, 8928);
        walk_primary(&mut long_encode, &mut decode, 11264, 11311);
        walk_primary(&mut long_encode, &mut decode, 11312, 11359);
        walk_primary(&mut long_encode, &mut decode, 4470, 4515);
        walk_primary(&mut long_encode, &mut decode, 7424, 7468);
        walk_primary(&mut long_encode, &mut decode, 4304, 4347);
        walk_primary(&mut long_encode, &mut decode, 6528, 6570);
        walk_primary(&mut long_encode, &mut decode, 4704, 4745);
        walk_primary(&mut long_encode, &mut decode, 6272, 6313);
        walk_primary(&mut long_encode, &mut decode, 6470, 6510);
        walk_primary(&mut long_encode, &mut decode, 12549, 12589);
        walk_primary(&mut long_encode, &mut decode, 9216, 9255);
        walk_primary(&mut long_encode, &mut decode, 1329, 1367);
        walk_primary(&mut long_encode, &mut decode, 1377, 1415);
        walk_primary(&mut long_encode, &mut decode, 1920, 1958);
        walk_primary(&mut long_encode, &mut decode, 4256, 4294);
        walk_primary(&mut long_encode, &mut decode, 11520, 11558);
        walk_primary(&mut long_encode, &mut decode, 2308, 2345);
        walk_short(&long_encode, &mut short_encode, &mut decode, 9143, 9180);
        walk_short(&long_encode, &mut short_encode, &mut decode, 10025, 10060);
        walk_short(&long_encode, &mut short_encode, &mut decode, 4096, 4130);
        walk_short(&long_encode, &mut short_encode, &mut decode, 7545, 7579);
        proof {
            reveal(walk_inv);
            assert forall|c: int| 0 <= c < DECODE_LEN implies decode@[c] == decode_value(c) by {
                lemma_decode_value(c);
                if decode_value(c) < 0x8000 && decode_value(c) != INVALID {
                    lemma_long_code(decode_value(c));
                } else if decode_value(c) != INVALID {
                    lemma_short_code(decode_value(c) - 0x8000);
                }
            }
        }
        Tables { long_encode, short_encode, decode }
    }
}

/// What holds while the ranges are walked: the codes emitted so far are the
/// alphabet's, each already has its reverse entry, and every other reverse
/// entry is either still the sentinel or already final.
#[verifier::opaque]
pub open spec fn walk_inv(long: Seq<u16>, short: Seq<u16>, dec: Seq<u16>) -> bool {
    &&& long.len() <= LONG_COUNT
    &&& short.len() <= SHORT_COUNT
    &&& dec.len() == DECODE_LEN
    &&& forall|i: int| 0 <= i < long.len() ==> long[i] == long_code(i)
    &&& forall|j: int| 0 <= j < short.len() ==> short[j] == short_code(j)
    &&& forall|i: int| 0 <= i < long.len() ==> dec[long_code(i)] == i
    &&& forall|j: int| 0 <= j < short.len() ==> dec[short_code(j)] == 0x8000 + j
    &&& forall|c: int| 0 <= c < DECODE_LEN ==> dec[c] == INVALID || dec[c] == decode_value(c)
}

/// Walks the primary range `[lo, hi)`, stopping once every word has a code.
fn walk_primary(long: &mut Vec<u16>, dec: &mut Vec<u16>, lo: u16, hi: u16)
    requires
        lo <= hi,
        walk_inv(old(long)@, seq![], old(dec)@),
        forall|i: int|
            old(long)@.len() <= i < old(long)@.len() + (hi - lo) && i < LONG_COUNT
                ==> long_code(i) == lo + (i - old(long)@.len()),
    ensures
        walk_inv(final(long)@, seq![], final(dec)@),
        final(long)@.len() == if old(long)@.len() + (hi - lo) < LONG_COUNT {
            old(long)@.len() + (hi - lo)
        } else {
            LONG_COUNT as int
        },
{
    proof {
        reveal(walk_inv);
    }
    let ghost start = long@.len();
    let mut code: u16 = lo;
    while code < hi && long.len() < LONG_COUNT
        invariant
            lo <= code <= hi,
            long@.len() == start + (code - lo),
            long@.len() <= LONG_COUNT,
            forall|i: int| start <= i < start + (hi - lo) && i < LONG_COUNT ==> long_code(i) == lo + (i - start),
            walk_inv(long@, seq![], dec@),
        decreases hi - code,
    {
        let idx = long.len();
        proof {
            reveal(walk_inv);
            lemma_long_code(idx as int);
            assert forall|i: int| 0 <= i < idx implies long_code(i) != long_code(idx as int) by {
                lemma_long_code(i);
            }
        }
        long.push(code);
        dec.set(code as usize, idx as u16);
        code = code + 1;
    }
}

/// Walks the short range `[lo, hi)`, stopping once every short word has a
/// code.
fn walk_short(long: &Vec<u16>, short: &mut Vec<u16>, dec: &mut Vec<u16>, lo: u16, hi: u16)
    requires
        lo <= hi,
        walk_inv(long@, old(short)@, old(dec)@),
        forall|j: int|
            old(short)@.len() <= j < old(short)@.len() + (hi - lo) && j < SHORT_COUNT
                ==> short_code(j) == lo + (j - old(short)@.len()),
    ensures
        walk_inv(long@, final(short)@, final(dec)@),
        final(short)@.len() == if old(short)@.len() + (hi - lo) < SHORT_COUNT {
            old(short)@.len() + (hi - lo)
        } else {
            SHORT_COUNT as int
        },
{
    proof {
        reveal(walk_inv);
    }
    let ghost start = short@.len();
    let mut code: u16 = lo;
    while code < hi && short.len() < SHORT_COUNT
        invariant
            lo <= code <= hi,
            short@.len() == start + (code - lo),
            short@.len() <= SHORT_COUNT,
            forall|j: int| start <= j < start + (hi - lo) && j < SHORT_COUNT ==> short_code(j) == lo + (j - start),
            walk_inv(long@, short@, dec@),
        decreases hi - code,
    {
        let idx = short.len();
        proof {
            reveal(walk_inv);
            lemma_short_code(idx as int);
            assert forall|j: int| 0 <= j < idx implies short_code(j) != short_code(idx as int) by {
                lemma_short_code(j);
            }
            assert forall|i: int| 0 <= i < long@.len() implies long_code(i) != short_code(idx as int) by {
                lemma_long_code(i);
            }
        }
        short.push(code);
        dec.set(code as usize, 0x8000 + idx as u16);
        code = code + 1;
    }
}

/// The code units below 42183 that lie in neither alphabet.
pub open spec fn unused_units() -> Set<int> {
    set_int_range(0, DECODE_LEN as int).filter(|c: int| decode_value(c) == INVALID)
}

/// Of the 42183 entries of the reverse table, exactly those that neither
/// alphabet uses hold the sentinel: 42183 - 32768 - 128 of them.
pub proof fn lemma_unused_count()
    ensures
        unused_units().finite(),
        unused_units().len() == DECODE_LEN - LONG_COUNT - SHORT_COUNT,
{
    broadcast use vstd::set::group_set_axioms, vstd::set_lib::group_set_properties;

    let range = set_int_range(0, DECODE_LEN as int);
    let longs = set_int_range(0, LONG_COUNT as int);
    let shorts = set_int_range(0, SHORT_COUNT as int);
    let lf = |i: int| long_code(i);
    let sf = |j: int| short_code(j);
    lemma_int_range(0, DECODE_LEN as int);
    lemma_int_range(0, LONG_COUNT as int);
    lemma_int_range(0, SHORT_COUNT as int);
    assert(injective_on(lf, longs)) by {
        assert forall|a: int, b: int| longs.contains(a) && longs.contains(b) && #[trigger] lf(a) == #[trigger] lf(b)
            implies a == b by {
            lemma_long_code(a);
            lemma_long_code(b);
        }
    }
    assert(injective_on(sf, shorts)) by {
        assert forall|a: int, b: int| shorts.contains(a) && shorts.contains(b) && #[trigger] sf(a) == #[trigger] sf(b)
            implies a == b by {
            lemma_short_code(a);
            lemma_short_code(b);
        }
    }
    let lset = longs.map(lf);
    let sset = shorts.map(sf);
    lemma_map_size(longs, lset, lf);
    lemma_map_size(shorts, sset, sf);
    assert(lset.intersect(sset) =~= Set::<int>::empty()) by {
        assert forall|c: int| lset.contains(c) implies !sset.contains(c) by {
            let i = choose|i: int| longs.contains(i) && lf(i) == c;
            lemma_long_code(i);
            if sset.contains(c) {
                let j = choose|j: int| shorts.contains(j) && sf(j) == c;
                lemma_short_code(j);
            }
        }
    }
    lemma_set_intersect_union_lens(lset, sset);
    let used = range.filter(|c: int| decode_value(c) != INVALID);
    assert(used =~= lset + sset) by {
        assert forall|c: int| used.contains(c) implies (lset + sset).contains(c) by {
            lemma_decode_value(c);
            let d = decode_value(c);
            if d < LONG_COUNT {
                assert(lf(d) == c);
                assert(longs.contains(d));
            } else {
                assert(sf(d - 0x8000) == c);
                assert(shorts.contains(d - 0x8000));
            }
        }
        assert forall|c: int| (lset + sset).contains(c) implies used.contains(c) by {
            if lset.contains(c) {
                let i = choose|i: int| longs.contains(i) && lf(i) == c;
                lemma_long_code(i);
            } else {
                let j = choose|j: int| shorts.contains(j) && sf(j) == c;
                lemma_short_code(j);
            }
        }
    }
    let unused = unused_units();
    assert(used.intersect(unused) =~= Set::<int>::empty());
    assert(used + unused =~= range);
    lemma_set_intersect_union_lens(used, unused);
}

/// The table built by `Tables::new` holds the sentinel in exactly
/// 42183 - 32768 - 128 entries.
pub proof fn lemma_table_unused_count(t: &Tables)
    requires
        t.wf(),
    ensures
        Set::new(|c: int| 0 <= c < DECODE_LEN && t.decode@[c] == INVALID).len() == DECODE_LEN - LONG_COUNT - SHORT_COUNT,
{
    lemma_unused_count();
    assert(Set::new(|c: int| 0 <= c < DECODE_LEN && t.decode@[c] == INVALID) =~= unused_units());
}

} // verus!
