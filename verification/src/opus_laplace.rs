//! The two-sided geometric distribution of the coarse energies.
//!
//! Frequencies are out of `2^15`. Zero has the first `fs` of them. Magnitude 1
//! follows, a negative and a positive bucket of the same width, then magnitude
//! 2 and so on, each narrower by the factor `decay / 2^14`; once a bucket would
//! be empty, every further value has width 1.
use crate::opus_range::RangeEncoder;
use vstd::arithmetic::power2::*;
use vstd::prelude::*;

verus! {

/// A stretch of frequencies.
pub struct Bucket {
    /// Which magnitude it belongs to.
    pub magnitude: int,
    /// The frequencies below it.
    pub fl: int,
    /// The width of its negative and of its positive half, less one.
    pub f: int,
}

impl Bucket {
    /// The bucket of magnitude 1.
    pub open spec fn first(fs: int, decay: int) -> Bucket {
        Bucket { magnitude: 1, fl: fs, f: (32736 - fs) * (16384 - decay) / 32768 }
    }

    /// The bucket is not empty and does not reach past the end.
    pub open spec fn usable(self) -> bool {
        self.f > 0 && self.fl + 2 * self.f + 2 <= 32768
    }

    /// The bucket of the next magnitude.
    pub open spec fn next(self, decay: int) -> Bucket {
        Bucket {
            magnitude: self.magnitude + 1,
            fl: self.fl + 2 * self.f + 2,
            f: 2 * self.f * decay / 32768,
        }
    }

    /// The bucket of magnitude `m`, or the first that is not usable.
    pub open spec fn find(self, m: int, decay: int) -> Bucket
        decreases m - self.magnitude,
    {
        if self.usable() && self.magnitude < m {
            self.next(decay).find(m, decay)
        } else {
            self
        }
    }

    /// The buckets from here on fade before they run out of room, with room
    /// for a pair of values behind them.
    pub open spec fn fades(self, decay: int) -> bool
        decreases self.f,
        when 0 <= decay < 16384
    {
        proof {
            if self.f > 0 {
                lemma_next_is_narrower(self.f, decay);
            }
        }
        if self.f <= 0 {
            self.fl + 2 <= 32768
        } else {
            self.usable() && self.next(decay).fades(decay)
        }
    }
}

/// The next bucket is narrower.
pub proof fn lemma_next_is_narrower(f: int, decay: int)
    requires
        f > 0,
        0 <= decay < 16384,
    ensures
        0 <= 2 * f * decay / 32768 < f,
{
    assert(0 <= 2 * f * decay < f * 32768) by (nonlinear_arith)
        requires
            f > 0,
            0 <= decay < 16384,
    ;
    let x = 2 * f * decay;
    assert(x / 32768 < f);
}

/// The frequencies of a value: where they start and how many there are.
pub struct Slot {
    /// The frequencies below it.
    pub fl: int,
    /// The number of its frequencies.
    pub width: int,
    /// The value that is coded: the nearest there is room for.
    pub value: int,
}

/// The frequencies of `value` under zero frequency `fs` and `decay`.
pub open spec fn slot(value: int, fs: int, decay: int) -> Slot {
    if value == 0 {
        Slot { fl: 0, width: fs, value: 0 }
    } else {
        let negative = value < 0;
        let m = if negative {
            -value
        } else {
            value
        };
        let b = Bucket::first(fs, decay).find(m, decay);
        if b.usable() {
            Slot {
                fl: b.fl + (if negative {
                    0
                } else {
                    b.f + 1
                }),
                width: b.f + 1,
                value,
            }
        } else {
            let room = if negative {
                (32769 - b.fl) / 2
            } else {
                (32768 - b.fl) / 2
            };
            let d = crate::int_math::min_of(m - b.magnitude, room - 1);
            Slot {
                fl: b.fl + 2 * d + (if negative {
                    0int
                } else {
                    1
                }),
                width: 1,
                value: if negative {
                    -(b.magnitude + d)
                } else {
                    b.magnitude + d
                },
            }
        }
    }
}

/// The bucket that frequency `fm` falls into, from bucket `b` on.
pub open spec fn bucket_of(b: Bucket, fm: int, decay: int) -> Bucket
    decreases b.f,
    when 0 <= decay < 16384
{
    proof {
        if b.f > 0 {
            lemma_next_is_narrower(b.f, decay);
        }
    }
    if b.f > 0 && fm >= b.fl + 2 * (b.f + 1) {
        bucket_of(b.next(decay), fm, decay)
    } else {
        b
    }
}

/// The value that a decoder takes frequency `fm` for, and its frequencies.
pub open spec fn decoded(fm: int, fs: int, decay: int) -> Slot {
    if fm < fs {
        Slot { fl: 0, width: fs, value: 0 }
    } else {
        let b = bucket_of(Bucket::first(fs, decay), fm, decay);
        let d = if b.f <= 0 {
            (fm - b.fl) / 2
        } else {
            0
        };
        let fl = b.fl + 2 * d;
        let m = b.magnitude + d;
        if fm < fl + b.f + 1 {
            Slot { fl, width: b.f + 1, value: -m }
        } else {
            Slot { fl: fl + b.f + 1, width: b.f + 1, value: m }
        }
    }
}

/// Bounds of a bucket on the way to a magnitude.
proof fn lemma_find(b: Bucket, m: int, decay: int)
    requires
        0 <= decay < 16384,
        0 <= b.f,
        0 <= b.fl <= 32768,
        1 <= b.magnitude <= m,
    ensures
        ({
            let r = b.find(m, decay);
            &&& b.fl <= r.fl <= 32768
            &&& 0 <= r.f
            &&& b.magnitude <= r.magnitude <= m
            &&& r.usable() ==> r.magnitude == m
        }),
    decreases m - b.magnitude,
{
    if b.usable() && b.magnitude < m {
        lemma_next_is_narrower(b.f, decay);
        lemma_find(b.next(decay), m, decay);
    }
}

/// The first bucket.
proof fn lemma_first(fs: int, decay: int)
    requires
        0 <= fs <= 32736,
        0 <= decay < 16384,
    ensures
        0 <= Bucket::first(fs, decay).f <= 16384,
        0 <= (32736 - fs) * (16384 - decay) <= 32736 * 16384,
{
    let (a, b) = (32736 - fs, 16384 - decay);
    assert(0 <= a * b <= 32736 * 16384) by (nonlinear_arith)
        requires
            0 <= a <= 32736,
            0 <= b <= 16384,
    ;
}

/// Every value gets at least one frequency, all of them within `2^15`.
pub proof fn law_slots_are_not_empty(value: int, fs: int, decay: int)
    requires
        0 < fs <= 32736,
        0 <= decay < 16384,
    ensures
        ({
            let s = slot(value, fs, decay);
            0 <= s.fl < s.fl + s.width <= 32768
        }),
{
    lemma_first(fs, decay);
    if value != 0 {
        let m = if value < 0 {
            -value
        } else {
            value
        };
        lemma_find(Bucket::first(fs, decay), m, decay);
    }
}

/// A frequency past the buckets below a magnitude leads the decoder there.
proof fn lemma_bucket_of_find(b: Bucket, m: int, fm: int, decay: int)
    requires
        0 <= decay < 16384,
        0 <= b.f,
        b.fades(decay),
        b.magnitude <= m,
        b.find(m, decay).fl <= fm,
        b.find(m, decay).f > 0 ==> fm < b.find(m, decay).fl + 2 * (b.find(m, decay).f + 1),
    ensures
        bucket_of(b, fm, decay) == b.find(m, decay),
        b.find(m, decay).f <= 0 || b.find(m, decay).usable(),
    decreases m - b.magnitude,
{
    if b.usable() && b.magnitude < m {
        lemma_next_is_narrower(b.f, decay);
        lemma_fl_grows(b.next(decay), m, decay);
        lemma_bucket_of_find(b.next(decay), m, fm, decay);
    }
}

/// Further buckets start higher up.
proof fn lemma_fl_grows(b: Bucket, m: int, decay: int)
    requires
        0 <= decay < 16384,
        0 <= b.f,
    ensures
        b.find(m, decay).fl >= b.fl,
    decreases m - b.magnitude,
{
    if b.usable() && b.magnitude < m {
        lemma_next_is_narrower(b.f, decay);
        lemma_fl_grows(b.next(decay), m, decay);
    }
}

/// A decoder takes every frequency of a value for that value, as long as the
/// buckets fade before they run out of room.
pub proof fn law_slots_are_read_back(value: int, fs: int, decay: int, fm: int)
    requires
        0 < fs <= 32736,
        0 <= decay < 16384,
        Bucket::first(fs, decay).fades(decay),
        slot(value, fs, decay).fl <= fm < slot(value, fs, decay).fl + slot(value, fs, decay).width,
    ensures
        decoded(fm, fs, decay) == slot(value, fs, decay),
{
    if value != 0 {
        let m = if value < 0 {
            -value
        } else {
            value
        };
        let first = Bucket::first(fs, decay);
        lemma_first(fs, decay);
        lemma_find(first, m, decay);
        lemma_last_room(first, m, decay);
        lemma_bucket_of_find(first, m, fm, decay);
    }
}

/// Further buckets have larger magnitudes.
proof fn lemma_find_grows(b: Bucket, m: int, decay: int)
    ensures
        b.find(m, decay).magnitude >= b.magnitude,
    decreases m - b.magnitude,
{
    if b.usable() && b.magnitude < m {
        lemma_find_grows(b.next(decay), m, decay);
    }
}

/// Where the buckets fade before a magnitude, a decoder gets no further than there.
proof fn lemma_bucket_bound(b: Bucket, m: int, fm: int, decay: int)
    requires
        0 <= decay < 16384,
        0 <= b.f,
        b.fades(decay),
        b.magnitude <= m,
        b.find(m, decay).f <= 0,
        b.fl <= fm,
    ensures
        ({
            let e = b.find(m, decay);
            let r = bucket_of(b, fm, decay);
            &&& b.magnitude <= r.magnitude <= e.magnitude
            &&& r.f <= 0 ==> r == e
            &&& r.fl <= fm
        }),
    decreases m - b.magnitude,
{
    if b.f > 0 {
        lemma_next_is_narrower(b.f, decay);
        if fm >= b.fl + 2 * (b.f + 1) {
            lemma_bucket_bound(b.next(decay), m, fm, decay);
        } else {
            lemma_find_grows(b.next(decay), m, decay);
        }
    }
}

/// Of all values that a decoder can read, the one that is coded comes closest to the
/// value that was to be coded: that value itself if there is room for it.
pub proof fn law_nearest_value_is_coded(value: int, fs: int, decay: int, fm: int)
    requires
        0 < fs <= 32736,
        0 <= decay < 16384,
        Bucket::first(fs, decay).fades(decay),
        0 <= fm < 32768,
    ensures
        ({
            let (s, other) = (slot(value, fs, decay).value, decoded(fm, fs, decay).value);
            &&& value <= 0 ==> value <= s <= 0
            &&& value >= 0 ==> 0 <= s <= value
            &&& value < s ==> s <= other
            &&& s < value ==> other <= s
        }),
{
    let first = Bucket::first(fs, decay);
    lemma_first(fs, decay);
    if value != 0 {
        let m = if value < 0 {
            -value
        } else {
            value
        };
        lemma_find(first, m, decay);
        lemma_last_room(first, m, decay);
        let b = first.find(m, decay);
        if !b.usable() {
            assert(b.f <= 0);
            if fm >= fs {
                lemma_bucket_bound(first, m, fm, decay);
            }
        }
    }
}

/// Buckets that fade still fade from a later one on.
proof fn lemma_last_room(b: Bucket, m: int, decay: int)
    requires
        0 <= decay < 16384,
        0 <= b.f,
        b.fades(decay),
    ensures
        b.find(m, decay).fades(decay),
    decreases m - b.magnitude,
{
    if b.usable() && b.magnitude < m {
        lemma_next_is_narrower(b.f, decay);
        lemma_last_room(b.next(decay), m, decay);
    }
}

/// Code `value` under zero frequency `fs` and `decay`; a value there is no
/// room for is coded as the nearest there is.
pub fn ec_laplace_encode(enc: &mut RangeEncoder, value: i32, fs: u32, decay: u32)
    requires
        old(enc).wf(),
        old(enc).room(1),
        value > i32::MIN,
        0 < fs <= 32736,
        decay < 16384,
    ensures
        final(enc).wf(),
        final(enc)@ == ({
            let s = slot(value as int, fs as int, decay as int);
            old(enc)@.symbol(s.fl as nat, (s.fl + s.width) as nat, 32768)
        }),
        final(enc)@.digits <= old(enc)@.digits + 3,
        final(enc)@.raw == old(enc)@.raw,
{
    let (fl, width) = laplace_slot(value, fs, decay);
    proof {
        lemma2_to64();
        law_slots_are_not_empty(value as int, fs as int, decay as int);
        enc.lemma_wf_valid();
        crate::range_model::lemma_small_total_codes(
            enc@,
            fl as nat,
            (fl + width) as nat,
            32768,
        );
    }
    enc.encode_bin(fl, fl + width, 15);
}

/// Where the frequencies of `value` start and how many there are.
fn laplace_slot(value: i32, fs: u32, decay: u32) -> (r: (u32, u32))
    requires
        value > i32::MIN,
        0 < fs <= 32736,
        decay < 16384,
    ensures
        r.0 == slot(value as int, fs as int, decay as int).fl,
        r.1 == slot(value as int, fs as int, decay as int).width,
        r.0 + r.1 <= 32768,
{
    proof {
        law_slots_are_not_empty(value as int, fs as int, decay as int);
        lemma_first(fs as int, decay as int);
    }
    if value == 0 {
        return (0, fs);
    }
    let negative: bool = value < 0;
    let m: u32 = if negative {
        (-value) as u32
    } else {
        value as u32
    };
    let ghost first = Bucket::first(fs as int, decay as int);
    let mut i: u32 = 1;
    let mut fl: u32 = fs;
    let mut f: u32 = (32736 - fs) * (16384 - decay) / 32768;
    while f > 0 && fl + 2 * f + 2 <= 32768 && i < m
        invariant
            1 <= i <= m,
            m <= 0x7fff_ffff,
            fl <= 32768,
            f <= 16384,
            decay < 16384,
            first.find(m as int, decay as int) == (Bucket {
                magnitude: i as int,
                fl: fl as int,
                f: f as int,
            }).find(m as int, decay as int),
        decreases m - i,
    {
        proof {
            lemma_next_is_narrower(f as int, decay as int);
            assert(2 * f * decay <= 32768 * 16384) by (nonlinear_arith)
                requires
                    f <= 16384,
                    decay < 16384,
            ;
        }
        fl = fl + 2 * f + 2;
        f = 2 * f * decay / 32768;
        i = i + 1;
    }
    if f > 0 && fl + 2 * f + 2 <= 32768 {
        if negative {
            (fl, f + 1)
        } else {
            (fl + f + 1, f + 1)
        }
    } else {
        let room: u32 = if negative {
            (32769 - fl) / 2
        } else {
            (32768 - fl) / 2
        };
        let side: u32 = if negative {
            0
        } else {
            1
        };
        if room == 0 {
            (fl - 2 + side, 1)
        } else if m - i < room - 1 {
            (fl + 2 * (m - i) + side, 1)
        } else {
            (fl + 2 * (room - 1) + side, 1)
        }
    }
}

} // verus!
