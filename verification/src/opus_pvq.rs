//! Pulse vectors as numbers.
//!
//! A band's shape is a vector of `n` integers whose magnitudes add up to `k`.
//! There are `V(n, k)` of them, and each has an index below that, which is
//! coded as one equally likely integer.
use crate::opus_range::RangeEncoder;
use vstd::prelude::*;

verus! {

/// The number of vectors of `n` entries and `k` pulses whose first entry is
/// positive: `U(n, k)`.
pub open spec fn u_count(n: nat, k: nat) -> nat
    decreases n, k,
{
    if k == 0 || n == 0 {
        0
    } else if n == 1 || k == 1 {
        1
    } else {
        u_count((n - 1) as nat, k) + u_count(n, (k - 1) as nat) + u_count(
            (n - 1) as nat,
            (k - 1) as nat,
        )
    }
}

/// The number of vectors of `n` entries and `k` pulses.
pub open spec fn v_count(n: nat, k: nat) -> nat {
    u_count(n, k) + u_count(n, k + 1)
}

/// The magnitude of a number.
pub open spec fn magnitude(x: int) -> nat {
    if x < 0 {
        (-x) as nat
    } else {
        x as nat
    }
}

/// The number of pulses of a vector.
pub open spec fn pulses(y: Seq<int>) -> nat
    decreases y.len(),
{
    if y.len() == 0 {
        0
    } else {
        magnitude(y[0]) + pulses(y.skip(1))
    }
}

/// The index of a vector among those with as many entries and pulses.
pub open spec fn index(y: Seq<int>) -> nat
    decreases y.len(),
{
    if y.len() == 0 {
        0
    } else {
        let rest = pulses(y.skip(1));
        let sign = if y[0] < 0 {
            u_count(y.len(), pulses(y) + 1)
        } else {
            0
        };
        sign + u_count(y.len(), rest) + index(y.skip(1))
    }
}

/// Counting more pulses gives at least as many vectors; each step adds the
/// vectors with one entry less.
pub proof fn lemma_u_step(n: nat, k: nat)
    requires
        n >= 2,
    ensures
        u_count(n, k + 1) == u_count(n, k) + v_count((n - 1) as nat, k),
    decreases n,
{
    if k == 0 {
        assert(u_count(n, 1) == 1);
        assert(u_count((n - 1) as nat, 1) == 1);
    }
}

/// `U` grows with the number of pulses.
pub proof fn lemma_u_grows(n: nat, a: nat, b: nat)
    requires
        n >= 1,
        a <= b,
    ensures
        u_count(n, a) <= u_count(n, b),
    decreases b - a,
{
    if a < b {
        lemma_u_grows(n, a, (b - 1) as nat);
        if n >= 2 {
            lemma_u_step(n, (b - 1) as nat);
        }
    }
}

/// `U` grows with the number of entries.
pub proof fn lemma_u_grows_in_n(n: nat, m: nat, k: nat)
    requires
        1 <= n <= m,
    ensures
        u_count(n, k) <= u_count(m, k),
    decreases m - n,
{
    if n < m {
        lemma_u_grows_in_n(n, (m - 1) as nat, k);
    }
}

/// Every index is below the number of vectors.
pub proof fn law_index_is_in_range(y: Seq<int>)
    requires
        y.len() > 0,
    ensures
        index(y) < v_count(y.len(), pulses(y)),
        y[0] >= 0 ==> index(y) < u_count(y.len(), pulses(y) + 1),
        y.len() >= 2 ==> index(y.skip(1)) < v_count(
            (y.len() - 1) as nat,
            pulses(y.skip(1)),
        ),
    decreases y.len(),
{
    let n = y.len();
    let k = pulses(y);
    let rest = pulses(y.skip(1));
    let tail = y.skip(1);
    if n >= 2 {
        law_index_is_in_range(tail);
        lemma_u_step(n, rest);
    } else {
        assert(tail.len() == 0);
        assert(index(tail) == 0 && rest == 0);
        assert(u_count(1, 0) == 0 && u_count(1, 1) == 1);
    }
    lemma_u_grows(n, rest + 1, k + 1);
    if y[0] < 0 {
        lemma_u_grows(n, rest + 1, k);
    }
}

/// Two vectors with as many entries and pulses that have the same index are
/// the same vector: a decoder can tell them apart.
pub proof fn law_index_tells_vectors_apart(y: Seq<int>, z: Seq<int>)
    requires
        y.len() == z.len(),
        pulses(y) == pulses(z),
        index(y) == index(z),
    ensures
        y == z,
    decreases y.len(),
{
    let n = y.len();
    if n > 0 {
        let k = pulses(y);
        let (a, b) = (pulses(y.skip(1)), pulses(z.skip(1)));
        law_index_is_in_range(y);
        law_index_is_in_range(z);
        let top = u_count(n, k + 1);
        // A negative first entry moves the index to the upper part.
        assert((y[0] < 0) == (z[0] < 0));
        // The number of pulses behind it picks a stretch of the part.
        if n >= 2 {
            lemma_u_step(n, a);
            lemma_u_step(n, b);
            if a < b {
                lemma_u_grows(n, a + 1, b);
            } else if b < a {
                lemma_u_grows(n, b + 1, a);
            }
        } else {
            assert(y.skip(1).len() == 0 && z.skip(1).len() == 0);
        }
        assert(a == b);
        law_index_tells_vectors_apart(y.skip(1), z.skip(1));
        assert forall|j: int| 0 <= j < n implies y[j] == z[j] by {
            if j > 0 {
                assert(y.skip(1)[j - 1] == z.skip(1)[j - 1]);
            }
        }
    }
    assert(y =~= z);
}

/// The largest number of pulses, up to `k`, whose stretch of the indices starts
/// at `i` or before.
pub open spec fn pulses_behind(n: nat, k: nat, i: int) -> nat
    decreases k,
{
    if k > 0 && u_count(n, k) > i {
        pulses_behind(n, (k - 1) as nat, i)
    } else {
        k
    }
}

/// The vector of `n` entries and `k` pulses that a decoder makes of index `i`.
pub open spec fn vector(n: nat, k: nat, i: int) -> Seq<int>
    decreases n,
{
    if n == 0 {
        Seq::empty()
    } else {
        let top = u_count(n, k + 1);
        let j = if i >= top {
            i - top
        } else {
            i
        };
        let rest = pulses_behind(n, k, j);
        let first = if i >= top {
            rest - k
        } else {
            k - rest
        };
        seq![first] + vector((n - 1) as nat, rest, j - u_count(n, rest))
    }
}

/// The stretch that an index lies in.
proof fn lemma_stretch(n: nat, k: nat, i: int, rest: nat)
    requires
        n >= 1,
        rest <= k,
        u_count(n, rest) <= i,
        rest < k ==> i < u_count(n, rest + 1),
    ensures
        pulses_behind(n, k, i) == rest,
    decreases k,
{
    if rest < k {
        lemma_u_grows(n, rest + 1, k);
        lemma_stretch(n, (k - 1) as nat, i, rest);
    }
}

/// Every index lies in a stretch.
proof fn lemma_some_stretch(n: nat, k: nat, i: int)
    requires
        0 <= i,
    ensures
        ({
            let rest = pulses_behind(n, k, i);
            &&& rest <= k
            &&& u_count(n, rest) <= i
            &&& rest < k ==> i < u_count(n, rest + 1)
        }),
    decreases k,
{
    if k > 0 && u_count(n, k) > i {
        lemma_some_stretch(n, (k - 1) as nat, i);
    }
}

/// A decoder makes the vector of its index.
pub proof fn law_vector_is_read_back(y: Seq<int>)
    ensures
        vector(y.len(), pulses(y), index(y) as int) == y,
    decreases y.len(),
{
    let n = y.len();
    if n > 0 {
        let k = pulses(y);
        let tail = y.skip(1);
        let rest = pulses(tail);
        law_index_is_in_range(y);
        if n >= 2 {
            lemma_u_step(n, rest);
        } else {
            assert(tail.len() == 0);
            assert(u_count(1, 1) == 1);
        }
        lemma_stretch(n, k, (u_count(n, rest) + index(tail)) as int, rest);
        law_vector_is_read_back(tail);
        assert(seq![y[0]] + tail =~= y);
    } else {
        assert(y =~= Seq::<int>::empty());
    }
}

/// Every index below the number of vectors is that of a vector: the one that a
/// decoder makes of it.
pub proof fn law_every_index_has_its_vector(n: nat, k: nat, i: int)
    requires
        n >= 1,
        0 <= i < v_count(n, k),
    ensures
        vector(n, k, i).len() == n,
        pulses(vector(n, k, i)) == k,
        index(vector(n, k, i)) == i,
    decreases n,
{
    let top = u_count(n, k + 1);
    let j = if i >= top {
        i - top
    } else {
        i
    };
    lemma_u_grows(n, k, k + 1);
    lemma_some_stretch(n, k, j);
    let rest = pulses_behind(n, k, j);
    let behind = j - u_count(n, rest);
    let tail = vector((n - 1) as nat, rest, behind);
    let y = vector(n, k, i);
    assert(y.skip(1) =~= tail);
    if n >= 2 {
        lemma_u_step(n, rest);
        law_every_index_has_its_vector((n - 1) as nat, rest, behind);
    } else {
        assert(u_count(1, k + 1) == 1);
        assert(rest == 0) by {
            if rest > 0 {
                assert(u_count(1, rest) == 1);
            }
        }
        assert(tail.len() == 0);
        assert(pulses(tail) == 0 && index(tail) == 0);
    }
}

/// Leaving out the first entries leaves at most as many pulses.
proof fn lemma_pulses_skip(y: Seq<int>, j: int)
    requires
        0 <= j <= y.len(),
    ensures
        pulses(y.skip(j)) <= pulses(y),
        j < y.len() ==> pulses(y.skip(j)) == magnitude(y[j]) + pulses(y.skip(j + 1)),
        j < y.len() ==> y.skip(j).skip(1) == y.skip(j + 1),
    decreases j,
{
    if j < y.len() {
        assert(y.skip(j).skip(1) =~= y.skip(j + 1));
    }
    if j > 0 {
        lemma_pulses_skip(y, j - 1);
        assert(y.skip(j - 1).skip(1) =~= y.skip(j));
    } else {
        assert(y.skip(0) =~= y);
    }
}

/// `V` grows with the number of entries and of pulses.
pub proof fn lemma_v_grows(m: nat, n: nat, a: nat, b: nat)
    requires
        1 <= m <= n,
        a <= b,
    ensures
        v_count(m, a) <= v_count(n, b),
        u_count(m, a) <= u_count(n, b),
        u_count(m, a + 1) <= v_count(n, b),
{
    lemma_u_grows(m, a, b);
    lemma_u_grows(m, a + 1, b + 1);
    lemma_u_grows_in_n(m, n, b);
    lemma_u_grows_in_n(m, n, b + 1);
}

/// The magnitude of a machine integer.
fn magnitude_of(x: i32) -> (r: usize)
    ensures
        r == magnitude(x as int),
{
    if x < 0 {
        (-(x as i64)) as u32 as usize
    } else {
        x as usize
    }
}

/// The number of pulses of a vector.
fn count_pulses(y: &[i32]) -> (r: usize)
    requires
        pulses(crate::int_math::ints(y@)) <= usize::MAX,
    ensures
        r == pulses(crate::int_math::ints(y@)),
{
    let ghost v = crate::int_math::ints(y@);
    let mut k: usize = 0;
    let mut j: usize = y.len();
    while j > 0
        invariant
            v == crate::int_math::ints(y@),
            pulses(v) <= usize::MAX,
            j <= y@.len(),
            k == pulses(v.skip(j as int)),
        decreases j,
    {
        j = j - 1;
        proof {
            lemma_pulses_skip(v, j as int);
        }
        k = k + magnitude_of(y[j]);
    }
    proof {
        assert(v.skip(0) =~= v);
    }
    k
}

/// Turn row `U(m, ..)` into row `U(m + 1, ..)`; `false` if an entry does not
/// fit 64 bits.
fn next_row(row: &mut Vec<u64>, Ghost(m): Ghost<nat>) -> (fits: bool)
    requires
        m >= 1,
        old(row)@.len() >= 2,
        forall|i: int| 0 <= i < old(row)@.len() ==> #[trigger] old(row)@[i] == u_count(m, i as nat),
    ensures
        final(row)@.len() == old(row)@.len(),
        fits ==> forall|i: int|
            0 <= i < final(row)@.len() ==> #[trigger] final(row)@[i] == u_count(m + 1, i as nat),
        !fits ==> exists|i: int|
            0 <= i < old(row)@.len() && #[trigger] u_count(m + 1, i as nat) > u64::MAX,
{
    let ghost before = row@;
    let mut last: u64 = row[1];
    let mut k: usize = 2;
    proof {
        assert(u_count(m, 0) == 0 && u_count(m, 1) == 1);
        assert(u_count(m + 1, 0) == 0 && u_count(m + 1, 1) == 1);
        assert(before[0] == u_count(m, 0) && before[1] == u_count(m, 1));
    }
    while k < row.len()
        invariant
            m >= 1,
            before == old(row)@,
            before.len() >= 2,
            row@.len() == before.len(),
            2 <= k <= row@.len(),
            last == before[k - 1],
            forall|i: int| 0 <= i < before.len() ==> #[trigger] before[i] == u_count(m, i as nat),
            forall|i: int| 0 <= i < k ==> #[trigger] row@[i] == u_count(m + 1, i as nat),
            forall|i: int| k <= i < row@.len() ==> #[trigger] row@[i] == before[i],
        decreases row@.len() - k,
    {
        let here: u64 = row[k];
        proof {
            assert(before[k as int] == u_count(m, k as nat));
            assert(before[k - 1] == u_count(m, (k - 1) as nat));
            assert(row@[k - 1] == u_count(m + 1, (k - 1) as nat));
            assert(u_count(m + 1, k as nat) == here + row@[k - 1] + last);
        }
        let a: Option<u64> = here.checked_add(last);
        let b: Option<u64> = match a {
            Some(x) => x.checked_add(row[k - 1]),
            None => None,
        };
        match b {
            Some(x) => {
                row.set(k, x);
            },
            None => {
                return false;
            },
        }
        last = here;
        k = k + 1;
    }
    true
}

/// The index of `y` and the number of vectors like it; `None` if there are
/// more than 64 bits can count.
pub fn icwrs_u64(y: &[i32]) -> (r: Option<(u64, u64)>)
    requires
        y@.len() > 0,
        pulses(crate::int_math::ints(y@)) + 2 <= usize::MAX,
    ensures
        match r {
            Some((i, total)) => {
                &&& i == index(crate::int_math::ints(y@))
                &&& total == v_count(y@.len(), pulses(crate::int_math::ints(y@)))
            },
            None => v_count(y@.len(), pulses(crate::int_math::ints(y@))) > u64::MAX,
        },
{
    let ghost v = crate::int_math::ints(y@);
    let ghost n = y@.len();
    let all: usize = count_pulses(y);
    let mut row: Vec<u64> = vec![1u64; all + 2];
    row.set(0, 0);
    let mut idx: u64 = 0;
    let mut k: usize = 0;
    let mut j: usize = y.len();
    proof {
        assert(v.skip(n as int).len() == 0);
    }
    while j > 0
        invariant
            v == crate::int_math::ints(y@),
            n == y@.len(),
            j <= n,
            n > 0,
            all == pulses(v),
            all + 2 <= usize::MAX,
            row@.len() == all + 2,
            j < n ==> forall|i: int|
                0 <= i < row@.len() ==> #[trigger] row@[i] == u_count((n - j) as nat, i as nat),
            j == n ==> forall|i: int|
                0 <= i < row@.len() ==> #[trigger] row@[i] == (if i == 0 {
                    0u64
                } else {
                    1
                }),
            k == pulses(v.skip(j as int)),
            idx == index(v.skip(j as int)),
        decreases j,
    {
        if j < y.len() {
            let ghost m = (n - j) as nat;
            let fits: bool = next_row(&mut row, Ghost(m));
            if !fits {
                proof {
                    let i = choose|i: int|
                        0 <= i < all + 2 && #[trigger] u_count(m + 1, i as nat) > u64::MAX;
                    lemma_u_grows(m + 1, i as nat, all as nat + 1);
                    lemma_u_grows_in_n(m + 1, n, all as nat + 1);
                }
                return None;
            }
        } else {
            assert(forall|i: int|
                0 <= i < row@.len() ==> #[trigger] row@[i] == u_count(1, i as nat));
        }
        j = j - 1;
        let ghost m = (n - j) as nat;
        let ghost tail = v.skip(j as int);
        proof {
            lemma_pulses_skip(v, j as int);
            law_index_is_in_range(tail);
            lemma_v_grows(m, n, pulses(tail), all as nat);
        }
        let rest: usize = k;
        k = k + magnitude_of(y[j]);
        let sign: u64 = if y[j] < 0 {
            row[k + 1]
        } else {
            0
        };
        let a: Option<u64> = idx.checked_add(row[rest]);
        let b: Option<u64> = match a {
            Some(x) => x.checked_add(sign),
            None => None,
        };
        match b {
            Some(x) => {
                idx = x;
            },
            None => {
                return None;
            },
        }
    }
    proof {
        assert(v.skip(0) =~= v);
    }
    let total: Option<u64> = row[all].checked_add(row[all + 1]);
    match total {
        Some(t) => Some((idx, t)),
        None => None,
    }
}

/// Code the pulse vector `y` as its index. Nothing is written for a vector
/// without pulses, nor for one with more like it than 64 bits can count.
pub fn encode_pulses(enc: &mut RangeEncoder, y: &[i32])
    requires
        old(enc).wf(),
        old(enc).room(1),
        pulses(crate::int_math::ints(y@)) + 2 <= usize::MAX,
    ensures
        final(enc).wf(),
        final(enc)@ == crate::opus_celt::with_pulses(old(enc)@, crate::int_math::ints(y@)),
        final(enc)@.digits <= old(enc)@.digits + 3,
        final(enc)@.raw.len() <= old(enc)@.raw.len() + 56,
{
    if y.len() == 0 || count_pulses(y) == 0 {
        return;
    }
    proof {
        let v = crate::int_math::ints(y@);
        law_index_is_in_range(v);
        lemma_v_grows(1, v.len(), 1, pulses(v));
        assert(u_count(1, 1) == 1 && u_count(1, 2) == 1);
    }
    match icwrs_u64(y) {
        Some((idx, total)) => {
            enc.enc_uint_u64(idx, total);
        },
        None => {},
    }
}

/// How often `i` occurs in `places`.
pub open spec fn times(places: Seq<usize>, i: int) -> nat
    decreases places.len(),
{
    if places.len() == 0 {
        0
    } else {
        times(places.drop_last(), i) + (if places.last() == i {
            1nat
        } else {
            0
        })
    }
}

/// A place occurs no more often than there are places.
proof fn lemma_times_bound(places: Seq<usize>, i: int)
    ensures
        times(places, i) <= places.len(),
    decreases places.len(),
{
    if places.len() > 0 {
        lemma_times_bound(places.drop_last(), i);
    }
}

/// Vectors with the same magnitudes have as many pulses.
proof fn lemma_pulses_of_magnitudes(a: Seq<int>, b: Seq<int>)
    requires
        a.len() == b.len(),
        forall|i: int| 0 <= i < a.len() ==> magnitude(#[trigger] a[i]) == magnitude(b[i]),
    ensures
        pulses(a) == pulses(b),
    decreases a.len(),
{
    if a.len() > 0 {
        assert(magnitude(a[0]) == magnitude(b[0]));
        assert forall|i: int| 0 <= i < a.skip(1).len() implies magnitude(#[trigger] a.skip(1)[i])
            == magnitude(b.skip(1)[i]) by {
            assert(magnitude(a[i + 1]) == magnitude(b[i + 1]));
        }
        lemma_pulses_of_magnitudes(a.skip(1), b.skip(1));
    }
}

/// One more pulse at a place without negative ones.
proof fn lemma_pulses_update(y: Seq<int>, i: int)
    requires
        0 <= i < y.len(),
        y[i] >= 0,
    ensures
        pulses(y.update(i, y[i] + 1)) == pulses(y) + 1,
    decreases y.len(),
{
    let z = y.update(i, y[i] + 1);
    if i == 0 {
        assert(z.skip(1) =~= y.skip(1));
    } else {
        lemma_pulses_update(y.skip(1), i - 1);
        assert(z.skip(1) =~= y.skip(1).update(i - 1, y.skip(1)[i - 1] + 1));
    }
}

/// No pulses.
proof fn lemma_no_pulses(y: Seq<int>)
    requires
        forall|i: int| 0 <= i < y.len() ==> #[trigger] y[i] == 0,
    ensures
        pulses(y) == 0,
    decreases y.len(),
{
    if y.len() > 0 {
        assert(y[0] == 0);
        assert forall|i: int| 0 <= i < y.skip(1).len() implies #[trigger] y.skip(1)[i] == 0 by {
            assert(y[i + 1] == 0);
        }
        lemma_no_pulses(y.skip(1));
    }
}

/// The vector of `n` entries with a pulse at each of `places`, negative where
/// `negative` says so. It has as many pulses as there are places.
pub fn place_pulses(n: usize, places: &[usize], negative: &[bool]) -> (r: Vec<i32>)
    requires
        negative@.len() == n,
        places@.len() <= i32::MAX,
        forall|j: int| 0 <= j < places@.len() ==> #[trigger] places@[j] < n,
    ensures
        r@.len() == n,
        forall|i: int|
            0 <= i < n ==> #[trigger] r@[i] == (if negative@[i] {
                -(times(places@, i) as int)
            } else {
                times(places@, i) as int
            }),
        pulses(crate::int_math::ints(r@)) == places@.len(),
{
    let mut y: Vec<i32> = vec![0i32; n];
    let mut j: usize = 0;
    proof {
        lemma_no_pulses(crate::int_math::ints(y@));
        assert(places@.take(0) =~= Seq::<usize>::empty());
    }
    while j < places.len()
        invariant
            j <= places@.len() <= i32::MAX,
            y@.len() == n,
            forall|i: int| 0 <= i < places@.len() ==> #[trigger] places@[i] < n,
            forall|i: int| 0 <= i < n ==> #[trigger] y@[i] == times(places@.take(j as int), i),
            pulses(crate::int_math::ints(y@)) == j,
        decreases places@.len() - j,
    {
        let p: usize = places[j];
        let ghost before = y@;
        proof {
            lemma_times_bound(places@.take(j as int), p as int);
            lemma_pulses_update(crate::int_math::ints(y@), p as int);
            assert(places@.take(j + 1).drop_last() =~= places@.take(j as int));
            assert(places@.take(j + 1).last() == p);
        }
        let count: i32 = y[p];
        y.set(p, count + 1);
        proof {
            assert(crate::int_math::ints(y@) =~= crate::int_math::ints(before).update(
                p as int,
                count + 1,
            ));
        }
        j = j + 1;
    }
    let ghost placed = y@;
    proof {
        assert(places@.take(j as int) =~= places@);
        assert forall|i: int| 0 <= i < n implies 0 <= #[trigger] placed[i] <= i32::MAX by {
            lemma_times_bound(places@, i);
        }
    }
    let mut i: usize = 0;
    while i < n
        invariant
            i <= n,
            y@.len() == n,
            negative@.len() == n,
            placed.len() == n,
            forall|k: int| 0 <= k < n ==> 0 <= #[trigger] placed[k] <= i32::MAX,
            forall|k: int|
                0 <= k < n ==> #[trigger] y@[k] == (if k < i && negative@[k] {
                    -placed[k]
                } else {
                    placed[k] as int
                }),
        decreases n - i,
    {
        if negative[i] {
            proof {
                assert(0 <= placed[i as int] <= i32::MAX);
            }
            let v: i32 = y[i];
            y.set(i, -v);
        }
        i = i + 1;
    }
    proof {
        let (a, b) = (crate::int_math::ints(y@), crate::int_math::ints(placed));
        assert forall|k: int| 0 <= k < a.len() implies magnitude(#[trigger] a[k]) == magnitude(
            b[k],
        ) by {
            assert(y@[k] == (if negative@[k] {
                -placed[k]
            } else {
                placed[k] as int
            }));
            assert(0 <= placed[k]);
        }
        lemma_pulses_of_magnitudes(a, b);
        assert forall|k: int| 0 <= k < n implies #[trigger] y@[k] == (if negative@[k] {
            -(times(places@, k) as int)
        } else {
            times(places@, k) as int
        }) by {
            assert(placed[k] == times(places@, k));
        }
    }
    y
}

} // verus!
