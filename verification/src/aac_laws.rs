//! What the numbers in an AAC frame stand for: differences that add up, pairs that
//! follow each other, fields at fixed bits.
use crate::aac_bits;
use crate::aac_bits::{AacError, BitPlace};
use crate::aac_decoder;
use crate::aac_decoder::{Read, CB11_CODES, CB11_LENGTHS, CB11_X, CB11_Y};
use vstd::arithmetic::power2::*;
use vstd::prelude::*;

verus! {

/// The place behind `n` differences between scale factors, one after the other.
pub open spec fn behind_differences(p: BitPlace, n: nat) -> Read<()>
    decreases n,
{
    if n == 0 {
        Read::Done((), p)
    } else {
        match aac_decoder::sf_delta_at(p) {
            Read::Failed(e, q) => Read::Failed(e, q),
            Read::Done(_, q) => behind_differences(q, (n - 1) as nat),
        }
    }
}

/// Difference `k` of those that stand at `p`.
pub open spec fn difference(p: BitPlace, k: nat) -> int
    decreases k,
{
    match aac_decoder::sf_delta_at(p) {
        Read::Failed(_, _) => 0,
        Read::Done(d, q) => if k == 0 {
            d
        } else {
            difference(q, (k - 1) as nat)
        },
    }
}

/// The sum of differences 0 to `k - 1`.
pub open spec fn sum_of_differences(p: BitPlace, k: nat) -> int
    decreases k,
{
    if k == 0 {
        0
    } else {
        sum_of_differences(p, (k - 1) as nat) + difference(p, (k - 1) as nat)
    }
}

/// One more difference is read behind the others.
proof fn lemma_one_more_difference(p: BitPlace, n: nat)
    ensures
        behind_differences(p, n + 1) == (match behind_differences(p, n) {
            Read::Failed(e, q) => Read::Failed(e, q),
            Read::Done(_, q) => match aac_decoder::sf_delta_at(q) {
                Read::Failed(e, q1) => Read::<()>::Failed(e, q1),
                Read::Done(_, q1) => Read::Done((), q1),
            },
        }),
        behind_differences(p, n) matches Read::Done(_, q) ==> (aac_decoder::sf_delta_at(
            q,
        ) matches Read::Done(d, _) ==> difference(p, n) == d),
    decreases n,
{
    if n == 0 {
        match aac_decoder::sf_delta_at(p) {
            Read::Done(_, q) => {
                assert(behind_differences(q, 0) == Read::Done((), q));
            },
            Read::Failed(_, _) => {},
        }
    } else {
        match aac_decoder::sf_delta_at(p) {
            Read::Done(_, q) => {
                lemma_one_more_difference(q, (n - 1) as nat);
            },
            Read::Failed(_, _) => {},
        }
    }
}

/// Scale factors are differential: factor `k` is the global gain with the
/// differences 0 to `k` added, kept between -200 and 255, and the next element
/// follows the last difference.
pub proof fn law_scale_factors_add_up(p: BitPlace, gain: int, n: nat)
    ensures
        match (aac_decoder::scale_factors_at(p, gain, n), behind_differences(p, n)) {
            (Read::Failed(e, q), Read::Failed(e1, q1)) => e == e1 && q == q1,
            (Read::Done(f, q), Read::Done(_, q1)) => {
                &&& q == q1
                &&& f.list.len() == n
                &&& f.sum == gain + sum_of_differences(p, n)
                &&& forall|k: int|
                    0 <= k < n ==> ({
                        let x = gain + sum_of_differences(p, (k + 1) as nat);
                        &&& -200 <= x <= 255 ==> #[trigger] f.list[k] == x
                        &&& x < -200 ==> f.list[k] == -200
                        &&& x > 255 ==> f.list[k] == 255
                    })
            },
            _ => false,
        },
    decreases n,
{
    if n > 0 {
        let m = (n - 1) as nat;
        law_scale_factors_add_up(p, gain, m);
        lemma_one_more_difference(p, m);
    }
}

/// Neighbouring scale factors that are not cut off differ by the difference read
/// for the second one.
pub proof fn law_neighbours_differ_by_their_difference(p: BitPlace, gain: int, n: nat, k: int)
    requires
        0 < k < n,
        aac_decoder::scale_factors_at(p, gain, n) is Done,
        -200 < (aac_decoder::scale_factors_at(p, gain, n)->Done_0).list[k - 1] < 255,
        -200 < (aac_decoder::scale_factors_at(p, gain, n)->Done_0).list[k] < 255,
    ensures
        ({
            let f = (aac_decoder::scale_factors_at(p, gain, n)->Done_0).list;
            f[k] - f[k - 1] == difference(p, k as nat)
        }),
{
    law_scale_factors_add_up(p, gain, n);
    let f = (aac_decoder::scale_factors_at(p, gain, n)->Done_0).list;
    assert(f[k - 1] == f[k - 1] && f[k] == f[k]);
    assert(sum_of_differences(p, (k + 1) as nat) == sum_of_differences(p, k as nat) + difference(
        p,
        k as nat,
    ));
}

/// A louder gain moves every scale factor that is not cut off by as much.
pub proof fn law_gain_moves_all_scale_factors(p: BitPlace, gain: int, more: int, n: nat, k: int)
    requires
        0 <= k < n,
        aac_decoder::scale_factors_at(p, gain, n) is Done,
    ensures
        aac_decoder::scale_factors_at(p, gain + more, n) is Done,
        ({
            let f = (aac_decoder::scale_factors_at(p, gain, n)->Done_0).list;
            let g = (aac_decoder::scale_factors_at(p, gain + more, n)->Done_0).list;
            -200 < f[k] < 255 && -200 < g[k] < 255 ==> g[k] == f[k] + more
        }),
{
    law_scale_factors_add_up(p, gain, n);
    law_scale_factors_add_up(p, gain + more, n);
    let f = (aac_decoder::scale_factors_at(p, gain, n)->Done_0).list;
    let g = (aac_decoder::scale_factors_at(p, gain + more, n)->Done_0).list;
    assert(f[k] == f[k] && g[k] == g[k]);
}

/// A codeword is read where it stands, if no shorter one stands there too.
proof fn lemma_code_read(
    p: BitPlace,
    codes: Seq<u32>,
    lengths: Seq<u8>,
    n: nat,
    most: nat,
    k: nat,
    w: int,
)
    requires
        n < k <= most,
        p.has(k as int),
        0 <= w < codes.len(),
        lengths[w] == k,
        codes[w] == p.peek(k),
        forall|j: int|
            0 <= j < codes.len() && n < #[trigger] lengths[j] <= k && codes[j] == p.peek(
                lengths[j] as nat,
            ) ==> j == w,
    ensures
        aac_decoder::code_at(p, codes, lengths, n, most) == Read::Done(Some(w), p.ahead(k as int)),
    decreases k - n,
{
    let m = n + 1;
    let acc = p.peek(m);
    aac_decoder::lemma_entry_range(codes, lengths, m as int, acc, 0);
    let e = aac_decoder::entry_from(codes, lengths, m as int, acc, 0);
    if m == k {
        aac_decoder::lemma_entry_found(codes, lengths, m as int, acc, 0, w);
        let j = e->0;
        assert(lengths[j] == k);
    } else {
        if e is Some {
            let j = e->0;
            assert(lengths[j] == m && codes[j] == p.peek(lengths[j] as nat));
            assert(false);
        }
        lemma_code_read(p, codes, lengths, m, most, k, w);
    }
}

/// The prefixes of the next bits.
proof fn lemma_prefixes(p: BitPlace)
    ensures
        p.peek(2) / 2 == p.peek(1),
        p.peek(3) / 2 == p.peek(2),
        p.peek(4) / 2 == p.peek(3),
        p.peek(5) / 2 == p.peek(4),
        p.peek(6) / 2 == p.peek(5),
        p.peek(7) / 2 == p.peek(6),
        p.peek(8) / 2 == p.peek(7),
        p.peek(9) / 2 == p.peek(8),
        p.peek(1) < 2,
{
    aac_decoder::lemma_peek_prefix(p, 1);
    aac_decoder::lemma_peek_prefix(p, 2);
    aac_decoder::lemma_peek_prefix(p, 3);
    aac_decoder::lemma_peek_prefix(p, 4);
    aac_decoder::lemma_peek_prefix(p, 5);
    aac_decoder::lemma_peek_prefix(p, 6);
    aac_decoder::lemma_peek_prefix(p, 7);
    aac_decoder::lemma_peek_prefix(p, 8);
    lemma2_to64();
    aac_bits::lemma_bits_at_bound(p.data, p.pos, 1);
}

/// The difference that a codeword of `n` bits with the value `v` stands for: one bit
/// for no difference, and longer ones for larger differences, the positive one first.
pub open spec fn difference_of_code(n: nat, v: nat) -> Option<int> {
    if n == 1 && v == 1 {
        Some(0)
    } else if n == 3 && v == 2 {
        Some(1)
    } else if n == 3 && v == 3 {
        Some(-1)
    } else if n == 4 && v == 0 {
        Some(2)
    } else if n == 4 && v == 1 {
        Some(-2)
    } else if n == 5 && v == 4 {
        Some(3)
    } else if n == 5 && v == 5 {
        Some(-3)
    } else if n == 6 && v == 12 {
        Some(4)
    } else if n == 6 && v == 13 {
        Some(-4)
    } else if n == 6 && v == 14 {
        Some(5)
    } else if n == 6 && v == 15 {
        Some(-5)
    } else {
        None
    }
}

/// A difference is read from its codeword, and nothing behind it.
pub proof fn law_differences_are_read_from_their_codewords(p: BitPlace, n: nat)
    requires
        p.has(n as int),
        difference_of_code(n, p.peek(n)) is Some,
    ensures
        aac_decoder::sf_delta_at(p) == Read::Done(
            difference_of_code(n, p.peek(n))->0,
            p.ahead(n as int),
        ),
{
    let (c, l) = (aac_decoder::SF_CODES@, aac_decoder::SF_LENGTHS@);
    let v = p.peek(n);
    lemma_prefixes(p);
    let w: int = if n == 1 {
        0
    } else if n == 3 {
        v - 1
    } else if n == 4 {
        (v + 3) as int
    } else if n == 5 {
        (v + 1) as int
    } else {
        v - 5
    };
    assert(l[w] == n && c[w] == v);
    assert forall|j: int|
        0 <= j < c.len() && 0 < #[trigger] l[j] <= n && c[j] == p.peek(l[j] as nat) implies j
        == w by {
        assert(0 <= j < 11) by {
            assert(j >= 11 ==> l[j] >= 7);
        }
    }
    lemma_code_read(p, c, l, 0, 19, n, w);
}

/// A pair of small coefficients is read back from its codeword and the signs of those
/// that are not zero, the first one's before the second one's: entry `i` of the
/// codebook has the two magnitudes, and a sign bit of one is for a negative one.
pub proof fn law_pairs_are_read_back(p: BitPlace, i: int, x: int, y: int)
    requires
        0 <= i < 27,
        x == CB11_X[i] || x == -CB11_X[i],
        y == CB11_Y[i] || y == -CB11_Y[i],
        ({
            let n = CB11_LENGTHS[i] as int;
            let signs = (if x != 0 {
                1int
            } else {
                0
            }) + (if y != 0 {
                1int
            } else {
                0
            });
            &&& p.has(n + signs)
            &&& p.peek(n as nat) == CB11_CODES[i]
            &&& x != 0 ==> (p.ahead(n).peek(1) == 1 <==> x < 0)
            &&& y != 0 ==> (p.ahead(n + signs - 1).peek(1) == 1 <==> y < 0)
        }),
    ensures
        aac_decoder::pair_at(p) matches Read::Done(v, q) && v.0 == x && v.1 == y && q == p.ahead(
            CB11_LENGTHS[i] + (if x != 0 {
                1int
            } else {
                0
            }) + (if y != 0 {
                1int
            } else {
                0
            }),
        ),
{
    let (c, l) = (CB11_CODES@, CB11_LENGTHS@);
    let n = l[i] as nat;
    lemma_prefixes(p);
    assert(2 <= n <= 9);
    assert forall|j: int|
        0 <= j < c.len() && 0 < #[trigger] l[j] <= n && c[j] == p.peek(l[j] as nat) implies j
        == i by {
        lemma_pair_codes_differ(p, i, j);
    }
    lemma_code_read(p, c, l, 0, 20, n, i);
    lemma2_to64();
    aac_bits::lemma_bits_at_bound(p.data, p.ahead(n as int).pos, 1);
    aac_bits::lemma_bits_at_bound(p.data, p.ahead(n + 1int).pos, 1);
    assert(CB11_X[i] < 16 && CB11_Y[i] < 16);
}

/// No codeword of a pair is the start of another.
#[verifier::spinoff_prover]
proof fn lemma_pair_codes_differ(p: BitPlace, i: int, j: int)
    requires
        0 <= i < 27,
        0 <= j < 28,
        CB11_LENGTHS[j] <= CB11_LENGTHS[i],
        CB11_CODES[i] == p.peek(CB11_LENGTHS[i] as nat),
        CB11_CODES[j] == p.peek(CB11_LENGTHS[j] as nat),
    ensures
        j == i,
{
    lemma_prefixes(p);
    let (a, b) = (CB11_LENGTHS[i] as int, CB11_LENGTHS[j] as int);
    let (u, v) = (CB11_CODES[i] as int, CB11_CODES[j] as int);
    assert(2 <= a <= 9);
    assert(j < 27);
    assert((a == 2 ==> u == 0) && (a == 3 ==> 2 <= u <= 3 && i == u - 1) && (a == 4 ==> 8 <= u <= 10
        && i == u - 5));
    assert((a == 5 ==> 22 <= u <= 26 && i == u - 16) && (a == 6 ==> 54 <= u <= 60 && i == u - 43));
    assert((a == 7 ==> 122 <= u <= 125 && i == u - 104) && (a == 8 ==> 252 <= u <= 254 && i == u
        - 230));
    assert(a == 9 ==> 510 <= u <= 511 && i == u - 485);
    assert((b == 2 ==> v == 0 && j == 0) && (b == 3 ==> 2 <= v <= 3 && j == v - 1) && (b == 4 ==> 8
        <= v <= 10 && j == v - 5));
    assert((b == 5 ==> 22 <= v <= 26 && j == v - 16) && (b == 6 ==> 54 <= v <= 60 && j == v - 43));
    assert((b == 7 ==> 122 <= v <= 125 && j == v - 104) && (b == 8 ==> 252 <= v <= 254 && j == v
        - 230));
    assert(b == 9 ==> 510 <= v <= 511 && j == v - 485);
}

/// A large magnitude is read back from its escape sequence: as many one bits as it has
/// binary digits beyond five, a zero, and its digits below the leading one.
pub proof fn law_escapes_are_read_back(p: BitPlace, base: nat, k: nat, magnitude: nat)
    requires
        16 <= base,
        k <= 24,
        pow2(k + 4) <= magnitude < pow2(k + 5),
        p.has(2 * k + 5int),
        forall|j: int| 0 <= j < k ==> #[trigger] p.ahead(j).peek(1) == 1,
        p.ahead(k as int).peek(1) == 0,
        p.ahead(k + 1int).peek(k + 4) == magnitude - pow2(k + 4),
    ensures
        aac_decoder::escape_at(p, base) == Read::Done(magnitude, p.ahead(2 * k + 5int)),
{
    lemma_ones(p, 0, k);
}

/// One bits are counted up to the zero behind them.
proof fn lemma_ones(p: BitPlace, n: nat, k: nat)
    requires
        n <= k <= 24,
        p.has(k + 1int),
        forall|j: int| n <= j < k ==> #[trigger] p.ahead(j).peek(1) == 1,
        p.ahead(k as int).peek(1) == 0,
    ensures
        aac_decoder::ones_at(p.ahead(n as int), n) == Read::Done(k, p.ahead(k + 1int)),
    decreases k - n,
{
    if n < k {
        assert(p.ahead(n as int).peek(1) == 1);
        lemma_ones(p, n + 1, k);
        assert(p.ahead(n as int).ahead(1) == p.ahead(n + 1int));
    }
}

/// The place where pair `k` of those that stand at `p` starts.
pub open spec fn pair_place(p: BitPlace, k: nat) -> BitPlace
    decreases k,
{
    if k == 0 {
        p
    } else {
        match aac_decoder::pair_at(p) {
            Read::Done(_, q) => pair_place(q, (k - 1) as nat),
            Read::Failed(_, q) => q,
        }
    }
}

/// One more pair starts behind the pairs before it.
proof fn lemma_next_pair(p: BitPlace, k: nat)
    requires
        aac_decoder::pair_at(pair_place(p, k)) is Done,
        aac_decoder::pairs_at(p, k) is Done,
    ensures
        aac_decoder::pair_at(pair_place(p, k)) == Read::Done(
            aac_decoder::pair_at(pair_place(p, k))->Done_0,
            pair_place(p, k + 1),
        ),
    decreases k,
{
    if k == 0 {
        assert(pair_place(p, 1) == pair_place(aac_decoder::pair_at(p)->Done_1, 0));
    } else {
        lemma_pairs_from_the_front(p, k);
        lemma_next_pair(aac_decoder::pair_at(p)->Done_1, (k - 1) as nat);
    }
}

/// Pairs can be read from the front as well.
proof fn lemma_pairs_from_the_front(p: BitPlace, n: nat)
    requires
        n > 0,
        aac_decoder::pairs_at(p, n) is Done,
    ensures
        aac_decoder::pair_at(p) is Done,
        aac_decoder::pairs_at(aac_decoder::pair_at(p)->Done_1, (n - 1) as nat) is Done,
        (aac_decoder::pairs_at(p, n)->Done_1) == (aac_decoder::pairs_at(
            aac_decoder::pair_at(p)->Done_1,
            (n - 1) as nat,
        )->Done_1),
    decreases n,
{
    let m = (n - 1) as nat;
    if m > 0 {
        lemma_pairs_from_the_front(p, m);
    } else {
        assert(aac_decoder::pairs_at(p, 0) == Read::Done(Seq::<int>::empty(), p));
    }
}

/// Coefficients come in the order of the stream, two from each pair: pair `k` gives
/// coefficients `2 k` and `2 k + 1`, each pair starts where the one before it ends,
/// and what follows starts behind the last.
pub proof fn law_pairs_follow_each_other(p: BitPlace, n: nat)
    requires
        aac_decoder::pairs_at(p, n) is Done,
    ensures
        ({
            let s = aac_decoder::pairs_at(p, n)->Done_0;
            &&& s.len() == 2 * n
            &&& (aac_decoder::pairs_at(p, n)->Done_1) == pair_place(p, n)
            &&& forall|k: int|
                0 <= k < n ==> (#[trigger] aac_decoder::pair_at(
                    pair_place(p, k as nat),
                ) matches Read::Done(v, _) && s[2 * k] == v.0 && s[2 * k + 1] == v.1)
        }),
    decreases n,
{
    if n > 0 {
        let m = (n - 1) as nat;
        law_pairs_follow_each_other(p, m);
        let s = aac_decoder::pairs_at(p, n)->Done_0;
        let t = aac_decoder::pairs_at(p, m)->Done_0;
        lemma_next_pair(p, m);
        assert forall|k: int| 0 <= k < n implies (#[trigger] aac_decoder::pair_at(
            pair_place(p, k as nat),
        ) matches Read::Done(v, _) && s[2 * k] == v.0 && s[2 * k + 1] == v.1) by {
            if k < m {
                assert(s[2 * k] == t[2 * k] && s[2 * k + 1] == t[2 * k + 1]);
            }
        }
    }
}

/// Windows `w - 1` and `w` of eight short ones are in different groups exactly where
/// bit `7 - w` of the grouping is zero: a group then starts at window `w`, which means
/// that the groups before it have `w` windows.
pub proof fn law_grouping_bits_say_where_groups_start(grouping: nat, w: int)
    requires
        1 <= w <= 7,
    ensures
        (exists|g: int|
            #![trigger aac_decoder::window_groups(grouping, 7).take(g)]
            0 <= g < aac_decoder::window_groups(grouping, 7).len() && aac_decoder::total_of(
                aac_decoder::window_groups(grouping, 7).take(g),
            ) == w) <==> (grouping / pow2((7 - w) as nat)) % 2 == 0,
{
    lemma_group_starts(grouping, 7, w);
}

/// Where groups start among the first windows.
proof fn lemma_group_starts(grouping: nat, n: nat, w: int)
    requires
        1 <= w <= n <= 7,
    ensures
        (exists|g: int|
            #![trigger aac_decoder::window_groups(grouping, n).take(g)]
            0 <= g < aac_decoder::window_groups(grouping, n).len() && aac_decoder::total_of(
                aac_decoder::window_groups(grouping, n).take(g),
            ) == w) <==> (grouping / pow2((7 - w) as nat)) % 2 == 0,
    decreases n,
{
    let m = (n - 1) as nat;
    let s = aac_decoder::window_groups(grouping, n);
    let t = aac_decoder::window_groups(grouping, m);
    aac_decoder::law_groups_make_up_the_windows(grouping, m);
    aac_decoder::lemma_window_groups(grouping, m);
    aac_decoder::lemma_window_groups(grouping, n);
    assert forall|g: int| 0 <= g < t.len() implies s.take(g) == #[trigger] t.take(g) by {
        assert(s.take(g) =~= t.take(g));
    }
    assert(t.take(t.len() as int) =~= t);
    if (grouping / pow2((7 - n) as nat)) % 2 == 0 {
        assert(s.take(t.len() as int) =~= t);
        if w < n {
            lemma_group_starts(grouping, m, w);
            if exists|g: int|
                #![trigger t.take(g)]
                0 <= g < t.len() && aac_decoder::total_of(t.take(g)) == w {
                let g = choose|g: int|
                    #![trigger t.take(g)]
                    0 <= g < t.len() && aac_decoder::total_of(t.take(g)) == w;
                assert(s.take(g) == t.take(g));
            }
            if exists|g: int|
                #![trigger s.take(g)]
                0 <= g < s.len() && aac_decoder::total_of(s.take(g)) == w {
                let g = choose|g: int|
                    #![trigger s.take(g)]
                    0 <= g < s.len() && aac_decoder::total_of(s.take(g)) == w;
                assert(g < t.len());
                assert(aac_decoder::total_of(t.take(g)) == w);
            }
        } else {
            assert(aac_decoder::total_of(s.take(t.len() as int)) == w);
        }
    } else {
        assert(s.len() == t.len());
        if w < n {
            lemma_group_starts(grouping, m, w);
            if exists|g: int|
                #![trigger t.take(g)]
                0 <= g < t.len() && aac_decoder::total_of(t.take(g)) == w {
                let g = choose|g: int|
                    #![trigger t.take(g)]
                    0 <= g < t.len() && aac_decoder::total_of(t.take(g)) == w;
                assert(s.take(g) == t.take(g));
            }
            if exists|g: int|
                #![trigger s.take(g)]
                0 <= g < s.len() && aac_decoder::total_of(s.take(g)) == w {
                let g = choose|g: int|
                    #![trigger s.take(g)]
                    0 <= g < s.len() && aac_decoder::total_of(s.take(g)) == w;
                assert(aac_decoder::total_of(t.take(g)) == w);
            }
        } else {
            assert forall|g: int| 0 <= g < s.len() implies aac_decoder::total_of(
                #[trigger] s.take(g),
            ) < n by {
                assert(s.take(g) == t.take(g));
                lemma_part_of_total(t, g);
            }
        }
    }
}

/// Part of a sequence of positive numbers adds up to less than all of it.
proof fn lemma_part_of_total(t: Seq<int>, g: int)
    requires
        0 <= g < t.len(),
        forall|i: int| 0 <= i < t.len() ==> 1 <= #[trigger] t[i],
    ensures
        aac_decoder::total_of(t.take(g)) < aac_decoder::total_of(t),
    decreases t.len(),
{
    let u = t.drop_last();
    assert(1 <= t[t.len() - 1]);
    if g < u.len() {
        lemma_part_of_total(u, g);
        assert(u.take(g) =~= t.take(g));
    } else {
        assert(t.take(g) =~= u);
    }
}

/// A field within one byte.
proof fn lemma_field_in_byte(data: Seq<u8>, k: int, a: nat, n: nat)
    requires
        0 <= k < data.len(),
        a + n <= 8,
    ensures
        aac_bits::bits_at(data, 8 * k + a, n) == (data[k] as nat / pow2((8 - a - n) as nat)) % pow2(
            n,
        ),
{
    let p = BitPlace { data, pos: 8 * k };
    let m = (8 - a - n) as nat;
    aac_bits::law_whole_bytes_are_read(data, k);
    aac_bits::law_parts_make_up_the_whole(p, a, n);
    aac_bits::law_parts_make_up_the_whole(p, a + n, m);
    aac_bits::lemma_bits_at_bound(data, 8 * k + a, n);
    aac_bits::lemma_bits_at_bound(data, 8 * k + a + n, m);
    lemma_pow2_pos(m);
    lemma_pow2_pos(n);
    let (top, mid, low) = (
        p.peek(a) as int,
        p.ahead(a as int).peek(n) as int,
        p.ahead((a + n) as int).peek(m) as int,
    );
    let front = p.peek(a + n) as int;
    vstd::arithmetic::div_mod::lemma_fundamental_div_mod_converse(
        data[k] as int,
        pow2(m) as int,
        front,
        low,
    );
    vstd::arithmetic::div_mod::lemma_fundamental_div_mod_converse(
        front,
        pow2(n) as int,
        top,
        mid,
    );
}

/// A field of `a + b` bits, `a` of them in one byte and `b` at the start of the next.
proof fn lemma_field_across(data: Seq<u8>, pos: int, a: nat, b: nat)
    ensures
        aac_bits::bits_at(data, pos, a + b) == aac_bits::bits_at(data, pos, a) * pow2(b)
            + aac_bits::bits_at(data, pos + a, b),
{
    aac_bits::law_parts_make_up_the_whole(BitPlace { data, pos }, a, b);
}

/// The sampling frequency of an index.
pub open spec fn frequency_of(index: nat) -> int {
    if index == 0 {
        96000
    } else if index == 1 {
        88200
    } else if index == 2 {
        64000
    } else if index == 3 {
        48000
    } else if index == 4 {
        44100
    } else if index == 5 {
        32000
    } else if index == 6 {
        24000
    } else if index == 7 {
        22050
    } else if index == 8 {
        16000
    } else if index == 9 {
        12000
    } else if index == 10 {
        11025
    } else if index == 11 {
        8000
    } else {
        7350
    }
}

/// A header is read from its fields, bit by bit: twelve bits of sync, the absence of a
/// checksum at bit 15, the profile at 16, the sampling index at 18, the channels at 23,
/// the frame length at 30, the number of further blocks at 54. It is valid exactly if
/// the sync is there, neither the profile nor the index is reserved, the length covers
/// the header and stays within the data, and there is one block.
pub proof fn law_header_fields(data: Seq<u8>)
    requires
        7 <= data.len(),
    ensures
        ({
            let (absent, config) = (aac_bits::bits_at(data, 15, 1), aac_bits::bits_at(data, 23, 3));
            let (index, length) = (aac_bits::bits_at(data, 18, 4), aac_bits::bits_at(data, 30, 13));
            let header = if absent == 1 {
                7int
            } else {
                9
            };
            let valid = {
                &&& aac_bits::bits_at(data, 0, 12) == 0xFFF
                &&& aac_bits::bits_at(data, 16, 2) != 3
                &&& index <= 12
                &&& header <= length <= data.len()
                &&& aac_bits::bits_at(data, 54, 2) == 0
            };
            match aac_decoder::adts_header(data) {
                Ok(h) => {
                    &&& valid
                    &&& h.header == header
                    &&& h.length == length
                    &&& h.sample_rate == frequency_of(index)
                    &&& h.channels == (if config == 0 {
                        2nat
                    } else if config == 7 {
                        8
                    } else {
                        config
                    })
                },
                Err(_) => !valid,
            }
        }),
{
    reveal(aac_decoder::adts_header);
    lemma_header_values(data);
}

/// A field within one byte, with the powers of two worked out.
proof fn lemma_small_field(data: Seq<u8>, k: int, a: nat, n: nat, shift: nat, size: nat)
    requires
        0 <= k < data.len(),
        a + n <= 8,
        shift == pow2((8 - a - n) as nat),
        size == pow2(n),
    ensures
        aac_bits::bits_at(data, 8 * k + a, n) == (data[k] as nat / shift) % size,
{
    lemma_field_in_byte(data, k, a, n);
}

/// The low bits of a byte.
proof fn lemma_low_field(data: Seq<u8>, k: int, n: nat, size: nat)
    requires
        0 <= k < data.len(),
        n <= 8,
        size == pow2(n),
    ensures
        aac_bits::bits_at(data, 8 * k + 8 - n, n) == data[k] as nat % size,
{
    lemma2_to64();
    lemma_small_field(data, k, (8 - n) as nat, n, 1, size);
    let b = data[k] as nat;
    assert(b / 1 == b);
}

/// The top bits of a byte.
proof fn lemma_top_field(data: Seq<u8>, k: int, n: nat, shift: nat)
    requires
        0 <= k < data.len(),
        n <= 8,
        shift == pow2((8 - n) as nat),
    ensures
        aac_bits::bits_at(data, 8 * k, n) == data[k] as nat / shift,
{
    let size = pow2(n);
    lemma2_to64();
    lemma_pow2_adds(n, (8 - n) as nat);
    lemma_pow2_pos((8 - n) as nat);
    lemma_small_field(data, k, 0, n, shift, size);
    let b = data[k] as int;
    vstd::arithmetic::div_mod::lemma_multiply_divide_lt(b, shift as int, size as int);
    vstd::arithmetic::div_mod::lemma_div_pos_is_pos(b, shift as int);
    vstd::arithmetic::div_mod::lemma_small_mod((b / shift as int) as nat, size);
}

proof fn lemma_length_field(data: Seq<u8>)
    requires
        7 <= data.len(),
    ensures
        aac_bits::bits_at(data, 30, 13) == (data[3] % 4) * 2048 + data[4] * 8 + data[5] / 32,
{
    lemma2_to64();
    lemma_field_across(data, 30, 2, 8);
    lemma_field_across(data, 30, 10, 3);
    lemma_low_field(data, 3, 2, 4);
    lemma_top_field(data, 4, 8, 1);
    lemma_top_field(data, 5, 3, 32);
    let b = data[4] as nat;
    assert(b / 1 == b);
}

proof fn lemma_channel_field(data: Seq<u8>)
    requires
        7 <= data.len(),
    ensures
        aac_bits::bits_at(data, 23, 3) == (data[2] % 2) * 4 + data[3] / 64,
{
    lemma2_to64();
    lemma_field_across(data, 23, 1, 2);
    lemma_low_field(data, 2, 1, 2);
    lemma_top_field(data, 3, 2, 64);
}

proof fn lemma_sync_field(data: Seq<u8>)
    requires
        7 <= data.len(),
    ensures
        aac_bits::bits_at(data, 0, 12) == data[0] * 16 + data[1] / 16,
{
    lemma2_to64();
    lemma_field_across(data, 0, 8, 4);
    lemma_top_field(data, 0, 8, 1);
    lemma_top_field(data, 1, 4, 16);
    let b = data[0] as nat;
    assert(b / 1 == b);
}

proof fn lemma_short_fields(data: Seq<u8>)
    requires
        7 <= data.len(),
    ensures
        aac_bits::bits_at(data, 15, 1) == data[1] % 2,
        aac_bits::bits_at(data, 16, 2) == data[2] / 64,
        aac_bits::bits_at(data, 18, 4) == data[2] / 4 % 16,
        aac_bits::bits_at(data, 54, 2) == data[6] % 4,
{
    lemma2_to64();
    lemma_low_field(data, 1, 1, 2);
    lemma_top_field(data, 2, 2, 64);
    lemma_small_field(data, 2, 2, 4, 4, 16);
    lemma_low_field(data, 6, 2, 4);
}

/// The fields of a header as parts of its bytes.
proof fn lemma_header_values(data: Seq<u8>)
    requires
        7 <= data.len(),
    ensures
        aac_bits::bits_at(data, 0, 12) == data[0] * 16 + data[1] / 16,
        aac_bits::bits_at(data, 15, 1) == data[1] % 2,
        aac_bits::bits_at(data, 16, 2) == data[2] / 64,
        aac_bits::bits_at(data, 18, 4) == data[2] / 4 % 16,
        aac_bits::bits_at(data, 23, 3) == (data[2] % 2) * 4 + data[3] / 64,
        aac_bits::bits_at(data, 30, 13) == (data[3] % 4) * 2048 + data[4] * 8 + data[5] / 32,
        aac_bits::bits_at(data, 54, 2) == data[6] % 4,
{
    lemma_sync_field(data);
    lemma_short_fields(data);
    lemma_channel_field(data);
    lemma_length_field(data);
}

/// The first sync word is found: where twelve one bits start a byte, and nowhere before.
pub proof fn law_first_sync_is_found(data: Seq<u8>, from: int)
    requires
        0 <= from,
    ensures
        match aac_decoder::sync_from(data, from) {
            Some(n) => {
                &&& from <= n < data.len() - 1
                &&& data[n] == 0xFF && data[n + 1] >= 0xF0
                &&& forall|i: int| from <= i < n ==> !(#[trigger] data[i] == 0xFF && data[i + 1] >= 0xF0)
            },
            None => forall|i: int|
                from <= i < data.len() - 1 ==> !(#[trigger] data[i] == 0xFF && data[i + 1] >= 0xF0),
        },
    decreases data.len() - from,
{
    if from + 1 < data.len() {
        assert((data[from] * 16 + data[from + 1] / 16 == 0xFFF) == (data[from] == 0xFF && data[from
            + 1] >= 0xF0));
        if !(data[from] * 16 + data[from + 1] / 16 == 0xFFF) {
            law_first_sync_is_found(data, from + 1);
        }
    }
}

/// The fields of a channel stream header at bit `h`: a reserved bit, two bits for the
/// window sequence, one for its shape; for short windows four bits for the number of
/// bands and seven for the grouping, else six bits for the number of bands.
pub proof fn law_stream_header_fields(p: BitPlace)
    requires
        aac_decoder::ics_at(p) is Done,
    ensures
        ({
            let ics = aac_decoder::ics_at(p)->Done_0;
            let (data, h) = (p.data, p.pos);
            let short = aac_bits::bits_at(data, h + 1, 2) == 2;
            &&& ics.sequence == aac_bits::bits_at(data, h + 1, 2)
            &&& ics.shape == aac_bits::bits_at(data, h + 3, 1)
            &&& short ==> {
                &&& ics.max_sfb == aac_bits::bits_at(data, h + 4, 4)
                &&& ics.grouping == aac_bits::bits_at(data, h + 8, 7)
                &&& aac_decoder::total_of(ics.groups) == 8
            }
            &&& !short ==> {
                &&& ics.max_sfb == aac_bits::bits_at(data, h + 4, 6)
                &&& ics.grouping == 0
                &&& ics.groups == seq![1int]
            }
            &&& (aac_decoder::ics_at(p)->Done_1).data == data
            &&& (aac_decoder::ics_at(p)->Done_1).pos == h + (if short {
                15int
            } else {
                10
            })
        }),
{
    aac_decoder::law_groups_make_up_the_windows(p.ahead(8).peek(7), 7);
}

/// Where the side information at bit `q` ends: a flag and pulse data if it is set, a flag
/// and eight bits of noise shaping if it is set, and a flag that is not set.
pub open spec fn side_info_end(data: Seq<u8>, q: int) -> int {
    let pulses = if aac_bits::bits_at(data, q, 1) == 1 {
        9 + 9 * (aac_bits::bits_at(data, q + 1, 2) + 1)
    } else {
        1
    };
    let shaping = if aac_bits::bits_at(data, q + pulses, 1) == 1 {
        9int
    } else {
        1
    };
    q + pulses + shaping + 1
}

proof fn lemma_side_info(q: BitPlace)
    requires
        aac_decoder::behind_side_info(q) is Done,
    ensures
        (aac_decoder::behind_side_info(q)->Done_1) == (BitPlace {
            data: q.data,
            pos: side_info_end(q.data, q.pos),
        }),
        aac_bits::bits_at(q.data, side_info_end(q.data, q.pos) - 1, 1) == 0,
{
    lemma2_to64();
    aac_bits::lemma_bits_at_bound(q.data, q.pos, 1);
    let q1 = aac_decoder::behind_pulses(q)->Done_1;
    aac_bits::lemma_bits_at_bound(q.data, q1.pos, 1);
    let q2 = aac_decoder::behind_tns(q1)->Done_1;
    aac_bits::lemma_bits_at_bound(q.data, q2.pos, 1);
}

/// A channel is read from its parts, each behind the one before: four bits of tag, eight
/// bits of gain, the stream header, the differences between the scale factors, the side
/// information, the pairs of coefficients. Scale factor `k` is the gain with the first
/// differences added; coefficient `k` is from pair `k / 2`, and those beyond the active
/// bands are zero.
pub proof fn law_channels_are_read_part_by_part(p: BitPlace, sample_rate: u32)
    requires
        aac_decoder::channel_at(p, sample_rate) is Done,
    ensures
        ({
            let c = aac_decoder::channel_at(p, sample_rate)->Done_0;
            let gain = aac_bits::bits_at(p.data, p.pos + 4, 8);
            let header = BitPlace { data: p.data, pos: p.pos + 12 };
            let factors = aac_decoder::ics_at(header)->Done_1;
            let n = c.scale_factors.len();
            let side = behind_differences(factors, n)->Done_1;
            let pairs = BitPlace { data: p.data, pos: side_info_end(p.data, side.pos) };
            let edges = aac_decoder::sfb_edges(sample_rate);
            let last = crate::int_math::min_of(c.ics.max_sfb, edges.len() - 1);
            let active = crate::int_math::min_of(edges[last] as int, 1024);
            &&& aac_decoder::ics_at(header) matches Read::Done(ics, _) && ics == c.ics
            &&& n == c.ics.groups.len() * c.ics.max_sfb
            &&& behind_differences(factors, n) is Done
            &&& side.data == p.data
            &&& forall|k: int|
                0 <= k < n ==> ({
                    let x = gain + sum_of_differences(factors, (k + 1) as nat);
                    &&& -200 <= x <= 255 ==> #[trigger] c.scale_factors[k] == x
                    &&& x < -200 ==> c.scale_factors[k] == -200
                    &&& x > 255 ==> c.scale_factors[k] == 255
                })
            &&& c.coeffs.len() == 1024
            &&& forall|k: int|
                2 * (active / 2) <= k < 1024 ==> #[trigger] c.coeffs[k] == 0
            &&& pairs.has(1) ==> forall|k: int|
                0 <= k < active / 2 ==> (#[trigger] aac_decoder::pair_at(
                    pair_place(pairs, k as nat),
                ) matches Read::Done(v, _) && c.coeffs[2 * k] == v.0 && c.coeffs[2 * k + 1] == v.1)
        }),
{
    let c = aac_decoder::channel_at(p, sample_rate)->Done_0;
    let gain = p.ahead(4).peek(8) as int;
    let header = p.ahead(12);
    let ics = aac_decoder::ics_at(header)->Done_0;
    let factors = aac_decoder::ics_at(header)->Done_1;
    law_stream_header_fields(header);
    assert(0 <= ics.groups.len() * ics.max_sfb) by (nonlinear_arith)
        requires
            0 <= ics.max_sfb,
            0 <= ics.groups.len(),
    ;
    let n = (ics.groups.len() * ics.max_sfb) as nat;
    law_scale_factors_add_up(factors, gain, n);
    lemma_same_data(factors, n);
    let side = behind_differences(factors, n)->Done_1;
    lemma_side_info(side);
    let pairs = aac_decoder::behind_side_info(side)->Done_1;
    let edges = aac_decoder::sfb_edges(sample_rate);
    let count = (aac_decoder::active_end(ics.max_sfb, edges, 1024) / 2) as nat;
    if count > 0 && pairs.has(1) {
        law_pairs_follow_each_other(pairs, count);
    }
}

/// Reading differences stays within the data.
proof fn lemma_same_data(p: BitPlace, n: nat)
    requires
        behind_differences(p, n) is Done,
    ensures
        (behind_differences(p, n)->Done_1).data == p.data,
    decreases n,
{
    if n > 0 {
        let q = aac_decoder::sf_delta_at(p)->Done_1;
        lemma_code_stays(p, aac_decoder::SF_CODES@, aac_decoder::SF_LENGTHS@, 0, 19);
        lemma_same_data(q, (n - 1) as nat);
    }
}

proof fn lemma_code_stays(p: BitPlace, codes: Seq<u32>, lengths: Seq<u8>, n: nat, most: nat)
    ensures
        aac_decoder::code_at(p, codes, lengths, n, most) matches Read::Done(_, q) ==> q.data == p.data,
    decreases most - n,
{
    if n < most {
        lemma_code_stays(p, codes, lengths, n + 1, most);
    }
}

/// The channels of a frame come in the order of the stream: the element type in three
/// bits, the first channel behind it, and in a pair the second one behind the first. A
/// pair whose second channel fails keeps the first.
pub proof fn law_channels_come_in_order(data: Seq<u8>)
    requires
        aac_decoder::adts_header(data) is Ok,
    ensures
        ({
            let h = aac_decoder::adts_header(data)->Ok_0;
            let payload = data.subrange(h.header, h.length);
            let f = aac_decoder::frame_at(data);
            let kind = aac_bits::bits_at(payload, 0, 3);
            let first = aac_decoder::channel_at(BitPlace { data: payload, pos: 3 }, h.sample_rate);
            let second = aac_decoder::channel_at(first->Done_1, h.sample_rate);
            let there = payload.len() > 0 && kind <= 1 && first is Done;
            &&& f.sample_rate == Some(h.sample_rate)
            &&& f.channels.len() == (if !there {
                0nat
            } else if kind == 1 && second is Done {
                2
            } else {
                1
            })
            &&& there ==> f.channels[0] == (first->Done_0)
            &&& f.channels.len() == 2 ==> f.channels[1] == (second->Done_0)
            &&& f.error is None <==> there && (kind == 0 || second is Done)
        }),
{
    reveal(aac_decoder::frame_at);
}

/// No valid header stands between `a` and `b`.
pub open spec fn no_header_between(data: Seq<u8>, a: int, b: int) -> bool {
    forall|n: int|
        a <= n < b ==> aac_decoder::adts_header(#[trigger] data.skip(n)) is Err
}

/// The frames that start at `starts` are all there are from `pos` on: each has a valid
/// header, and none stands between the end of one and the start of the next.
pub open spec fn frames_cover(data: Seq<u8>, pos: int, starts: Seq<int>) -> bool
    decreases starts.len(),
{
    if starts.len() == 0 {
        no_header_between(data, pos, data.len() as int)
    } else {
        &&& pos <= starts[0]
        &&& no_header_between(data, pos, starts[0])
        &&& aac_decoder::adts_header(data.skip(starts[0])) matches Ok(h) && frames_cover(
            data,
            starts[0] + h.length,
            starts.skip(1),
        )
    }
}

/// A valid header starts with a sync word.
proof fn lemma_header_has_sync(data: Seq<u8>, n: int)
    requires
        0 <= n < data.len(),
        aac_decoder::adts_header(data.skip(n)) is Ok,
    ensures
        n + 1 < data.len(),
        data[n] == 0xFF && data[n + 1] >= 0xF0,
{
    reveal(aac_decoder::adts_header);
    let s = data.skip(n);
    assert(s[0] == data[n] && s[1] == data[n + 1]);
}

/// Where no sync word is found there is no header.
proof fn lemma_no_sync_no_header(data: Seq<u8>, from: int)
    requires
        0 <= from,
    ensures
        no_header_between(
            data,
            from,
            match aac_decoder::sync_from(data, from) {
                Some(n) => n,
                None => data.len() as int,
            },
        ),
{
    law_first_sync_is_found(data, from);
    let end = match aac_decoder::sync_from(data, from) {
        Some(n) => n,
        None => data.len() as int,
    };
    assert forall|n: int| from <= n < end implies aac_decoder::adts_header(
        #[trigger] data.skip(n),
    ) is Err by {
        if aac_decoder::adts_header(data.skip(n)) is Ok {
            lemma_header_has_sync(data, n);
        }
    }
}

/// The frames of a stream are all frames there are, in order: they cover the data from
/// the first sync word on, and nothing between them has a valid header.
pub proof fn law_no_frame_is_missed(data: Seq<u8>, pos: int)
    requires
        0 <= pos,
    ensures
        frames_cover(data, pos, aac_decoder::frame_starts(data, pos)),
    decreases data.len() - pos,
{
    if pos < data.len() {
        let rest = data.skip(pos);
        let starts = aac_decoder::frame_starts(data, pos);
        aac_decoder::lemma_header_length(rest);
        match aac_decoder::adts_header(rest) {
            Err(_) => {
                lemma_no_sync_no_header(data, pos + 1);
                law_first_sync_is_found(data, pos + 1);
                let end = match aac_decoder::sync_from(data, pos + 1) {
                    Some(n) => n,
                    None => data.len() as int,
                };
                assert forall|n: int| pos <= n < end implies aac_decoder::adts_header(
                    #[trigger] data.skip(n),
                ) is Err by {}
                assert(no_header_between(data, pos, end));
                match aac_decoder::sync_from(data, pos + 1) {
                    Some(n) => {
                        law_no_frame_is_missed(data, n);
                        lemma_cover_earlier(data, pos, n, starts);
                    },
                    None => {
                        assert(starts =~= Seq::<int>::empty());
                    },
                }
            },
            Ok(h) => {
                let end = pos + h.length;
                lemma_no_sync_no_header(data, end);
                law_first_sync_is_found(data, end);
                assert(starts[0] == pos);
                match aac_decoder::sync_from(data, end) {
                    Some(n) => {
                        law_no_frame_is_missed(data, n);
                        let later = aac_decoder::frame_starts(data, n);
                        lemma_cover_earlier(data, end, n, later);
                        assert(starts.skip(1) =~= later);
                        assert(frames_cover(data, end, starts.skip(1)));
                    },
                    None => {
                        assert(starts.skip(1) =~= Seq::<int>::empty());
                        assert(frames_cover(data, end, starts.skip(1)));
                    },
                }
            },
        }
    }
}

/// Looking from further ahead, where no header stands in between.
proof fn lemma_cover_earlier(data: Seq<u8>, pos: int, later: int, starts: Seq<int>)
    requires
        pos <= later,
        no_header_between(data, pos, later),
        frames_cover(data, later, starts),
    ensures
        frames_cover(data, pos, starts),
{
}

/// The frames of a stream are read where they start, in order.
pub proof fn law_frames_are_read_where_they_start(data: Seq<u8>)
    ensures
        match aac_decoder::sync_from(data, 0) {
            Some(n) => {
                let starts = aac_decoder::frame_starts(data, n);
                &&& frames_cover(data, 0, starts)
                &&& aac_decoder::stream_frames(data).len() == starts.len()
                &&& forall|i: int|
                    0 <= i < starts.len() ==> #[trigger] aac_decoder::stream_frames(data)[i]
                        == aac_decoder::frame_at(data.skip(starts[i]))
            },
            None => {
                &&& no_header_between(data, 0, data.len() as int)
                &&& aac_decoder::stream_frames(data).len() == 0
            },
        },
{
    lemma_no_sync_no_header(data, 0);
    law_first_sync_is_found(data, 0);
    if let Some(n) = aac_decoder::sync_from(data, 0) {
        law_no_frame_is_missed(data, n);
        lemma_cover_earlier(data, 0, n, aac_decoder::frame_starts(data, n));
    }
}

/// The bands of a long window start at coefficient 0, grow in steps of at least four
/// coefficients and multiples of it, and end at 1024, at every sample rate.
pub proof fn law_bands_cover_the_spectrum(sample_rate: u32, i: int)
    requires
        0 <= i < aac_decoder::sfb_edges(sample_rate).len() - 1,
    ensures
        ({
            let e = aac_decoder::sfb_edges(sample_rate);
            &&& e[0] == 0
            &&& e.last() == 1024
            &&& e[i] + 4 <= e[i + 1]
            &&& e[i] % 4 == 0
        }),
{
}

/// A header that is not valid is refused for the first thing that is wrong with it, in
/// the order of the stream: too few bytes, the sync, the profile, the sampling index, a
/// length below the header or beyond the data, and last more than one block. The error
/// holds the field.
pub proof fn law_headers_are_refused_for_their_first_fault(data: Seq<u8>)
    ensures
        ({
            let (sync, profile) = (aac_bits::bits_at(data, 0, 12), aac_bits::bits_at(data, 16, 2));
            let (index, length) = (aac_bits::bits_at(data, 18, 4), aac_bits::bits_at(data, 30, 13));
            let header = if aac_bits::bits_at(data, 15, 1) == 1 {
                7int
            } else {
                9
            };
            match aac_decoder::adts_header(data) {
                Ok(_) => data.len() >= 7,
                Err(AacError::HeaderTooShort) => data.len() < 7,
                Err(AacError::BadSync(w)) => data.len() >= 7 && w == sync && sync != 0xFFF,
                Err(AacError::ReservedProfile) => sync == 0xFFF && profile == 3,
                Err(AacError::BadSamplingIndex(i)) => {
                    sync == 0xFFF && profile != 3 && i == index && index > 12
                },
                Err(AacError::FrameBelowHeader { length: l, header: h }) => {
                    &&& sync == 0xFFF && profile != 3 && index <= 12
                    &&& l == length && h == header && length < header
                },
                Err(AacError::FrameBeyondData { length: l, available }) => {
                    &&& sync == 0xFFF && profile != 3 && index <= 12 && header <= length
                    &&& l == length && length > data.len()
                    &&& data.len() <= usize::MAX ==> available == data.len()
                },
                Err(AacError::MultipleBlocks(n)) => {
                    &&& sync == 0xFFF && profile != 3 && index <= 12 && header <= length
                        <= data.len()
                    &&& n == aac_bits::bits_at(data, 54, 2) && n > 0
                },
                Err(_) => false,
            }
        }),
{
    reveal(aac_decoder::adts_header);
    if data.len() >= 7 {
        lemma_header_values(data);
    }
}

/// The coefficients of a channel: `size` in all, those of the active bands from the pairs
/// in order, zeros behind them. The active bands end at the edge of the last one, at the
/// last edge if there are not as many, and at `size` at the latest. Without active bands
/// or bits nothing is read.
pub proof fn law_spectrum_is_read_from_pairs(
    p: BitPlace,
    max_sfb: int,
    edges: Seq<usize>,
    size: int,
)
    requires
        0 <= max_sfb,
        0 <= size,
        aac_decoder::spectrum_at(p, max_sfb, edges, size) is Done,
    ensures
        ({
            let s = aac_decoder::spectrum_at(p, max_sfb, edges, size)->Done_0;
            let q = aac_decoder::spectrum_at(p, max_sfb, edges, size)->Done_1;
            let end = if edges.len() == 0 {
                size
            } else if max_sfb < edges.len() {
                edges[max_sfb] as int
            } else {
                edges[edges.len() - 1] as int
            };
            let n = crate::int_math::min_of(end, size) / 2;
            &&& s.len() == size
            &&& forall|k: int| 2 * n <= k < size ==> #[trigger] s[k] == 0
            &&& !p.has(1) ==> q == p && forall|k: int| 0 <= k < size ==> #[trigger] s[k] == 0
            &&& p.has(1) ==> q == pair_place(p, n as nat) && forall|k: int|
                0 <= k < n ==> (#[trigger] aac_decoder::pair_at(
                    pair_place(p, k as nat),
                ) matches Read::Done(v, _) && s[2 * k] == v.0 && s[2 * k + 1] == v.1)
        }),
{
    let n = (aac_decoder::active_end(max_sfb, edges, size) / 2) as nat;
    if n > 0 && p.has(1) {
        law_pairs_follow_each_other(p, n);
    }
}

} // verus!
