//! Weekdays and the bit-set of allowed weekdays.
//!
//! A `Weekday` is one of the seven calendar weekdays, ordered Monday (index
//! 0) through Sunday (index 6). A `WeekdayFlags` value is a set of weekdays
//! encoded as a byte in which bit `i` marks weekday `i` as allowed.

use vstd::prelude::*;

verus! {

/// One of the seven calendar weekdays, Monday first.
#[derive(Clone, Copy, PartialEq, Eq, Structural, Debug)]
pub enum Weekday {
    Mon,
    Tue,
    Wed,
    Thu,
    Fri,
    Sat,
    Sun,
}

impl Weekday {
    /// Position of the weekday in Monday-first order: Monday 0 .. Sunday 6.
    pub open spec fn idx(self) -> int {
        match self {
            Weekday::Mon => 0,
            Weekday::Tue => 1,
            Weekday::Wed => 2,
            Weekday::Thu => 3,
            Weekday::Fri => 4,
            Weekday::Sat => 5,
            Weekday::Sun => 6,
        }
    }

    /// The Monday-first position as a machine integer.
    pub fn number(self) -> (n: u8)
        ensures
            n as int == self.idx(),
    {
        match self {
            Weekday::Mon => 0,
            Weekday::Tue => 1,
            Weekday::Wed => 2,
            Weekday::Thu => 3,
            Weekday::Fri => 4,
            Weekday::Sat => 5,
            Weekday::Sun => 6,
        }
    }

    /// The weekday at a Monday-first position.
    pub fn from_index(i: u8) -> (w: Weekday)
        requires
            i < 7,
        ensures
            w.idx() == i as int,
    {
        if i == 0 {
            Weekday::Mon
        } else if i == 1 {
            Weekday::Tue
        } else if i == 2 {
            Weekday::Wed
        } else if i == 3 {
            Weekday::Thu
        } else if i == 4 {
            Weekday::Fri
        } else if i == 5 {
            Weekday::Sat
        } else {
            Weekday::Sun
        }
    }
}

/// True iff bit `i` of `b` is set (`i` is a position, 0 through 6).
pub open spec fn bit_at(b: u8, i: int) -> bool {
    (b >> (i as u8)) & 1u8 == 1u8
}

/// The smallest position `j` with `i <= j < 7` whose bit is set in `b`,
/// or 7 if no such position exists.
pub open spec fn first_set_from(b: u8, i: int) -> int {
    if i <= 0 && bit_at(b, 0) {
        0
    } else if i <= 1 && bit_at(b, 1) {
        1
    } else if i <= 2 && bit_at(b, 2) {
        2
    } else if i <= 3 && bit_at(b, 3) {
        3
    } else if i <= 4 && bit_at(b, 4) {
        4
    } else if i <= 5 && bit_at(b, 5) {
        5
    } else if i <= 6 && bit_at(b, 6) {
        6
    } else {
        7
    }
}

/// A set of weekdays: bit `i` of `bits` marks weekday `i` as allowed.
#[derive(Clone, Copy, PartialEq, Eq, Structural, Debug)]
pub struct WeekdayFlags {
    pub bits: u8,
}

impl WeekdayFlags {
    /// True iff the weekday at position `i` is in the set.
    pub open spec fn has_idx(self, i: int) -> bool {
        0 <= i < 7 && bit_at(self.bits, i)
    }

    /// True iff the weekday is in the set.
    pub open spec fn has(self, w: Weekday) -> bool {
        self.has_idx(w.idx())
    }

    /// True iff the set contains at least one weekday.
    pub open spec fn nonempty_spec(self) -> bool {
        first_set_from(self.bits, 0) < 7
    }

    /// True iff every weekday is in the set.
    pub open spec fn is_all_spec(self) -> bool {
        forall|i: int| 0 <= i < 7 ==> self.has_idx(i)
    }
}

/// The smallest allowed position strictly greater than `c`, searching
/// circularly: positions `c + 1 .. 7` first, and if none of them is allowed,
/// the smallest allowed position overall (which may be `c` itself when `c`
/// is the only allowed position).
pub open spec fn next_in_mask(m: WeekdayFlags, c: int) -> int {
    if first_set_from(m.bits, c + 1) < 7 {
        first_set_from(m.bits, c + 1)
    } else {
        first_set_from(m.bits, 0)
    }
}

/// The smallest allowed position if it is strictly less than `c`, and `c`
/// itself otherwise.
pub open spec fn first_before_in_mask(m: WeekdayFlags, c: int) -> int {
    if first_set_from(m.bits, 0) < c {
        first_set_from(m.bits, 0)
    } else {
        c
    }
}

/// The seven low bit tests of a byte, written with the masks `1, 2, .., 64`,
/// agree with the shift-based `bit_at`.
proof fn lemma_bit_tests(b: u8)
    ensures
        (b & 1u8 != 0) == bit_at(b, 0),
        (b & 2u8 != 0) == bit_at(b, 1),
        (b & 4u8 != 0) == bit_at(b, 2),
        (b & 8u8 != 0) == bit_at(b, 3),
        (b & 16u8 != 0) == bit_at(b, 4),
        (b & 32u8 != 0) == bit_at(b, 5),
        (b & 64u8 != 0) == bit_at(b, 6),
{
    assert((b & 1u8 != 0) == ((b >> 0u8) & 1u8 == 1u8)) by (bit_vector);
    assert((b & 2u8 != 0) == ((b >> 1u8) & 1u8 == 1u8)) by (bit_vector);
    assert((b & 4u8 != 0) == ((b >> 2u8) & 1u8 == 1u8)) by (bit_vector);
    assert((b & 8u8 != 0) == ((b >> 3u8) & 1u8 == 1u8)) by (bit_vector);
    assert((b & 16u8 != 0) == ((b >> 4u8) & 1u8 == 1u8)) by (bit_vector);
    assert((b & 32u8 != 0) == ((b >> 5u8) & 1u8 == 1u8)) by (bit_vector);
    assert((b & 64u8 != 0) == ((b >> 6u8) & 1u8 == 1u8)) by (bit_vector);
}

/// A single-bit byte `1 << n` has exactly the bit at position `n` set.
proof fn lemma_single_bit(n: u8)
    requires
        n < 7,
    ensures
        forall|k: u8| k < 7 ==> ((((1u8 << n) >> k) & 1u8 == 1u8) <==> k == n),
{
    assert(forall|nn: u8, k: u8|
        nn < 7 && k < 7 ==> ((((1u8 << nn) >> k) & 1u8 == 1u8) <==> k == nn)) by (bit_vector);
}

impl WeekdayFlags {
    /// The singleton set for Monday.
    pub fn mon() -> (m: WeekdayFlags)
        ensures
            forall|i: int| #![auto] m.has_idx(i) <==> i == 0,
    {
        WeekdayFlags::from_weekday(Weekday::Mon)
    }

    /// The singleton set for Tuesday.
    pub fn tue() -> (m: WeekdayFlags)
        ensures
            forall|i: int| #![auto] m.has_idx(i) <==> i == 1,
    {
        WeekdayFlags::from_weekday(Weekday::Tue)
    }

    /// The singleton set for Wednesday.
    pub fn wed() -> (m: WeekdayFlags)
        ensures
            forall|i: int| #![auto] m.has_idx(i) <==> i == 2,
    {
        WeekdayFlags::from_weekday(Weekday::Wed)
    }

    /// The singleton set for Thursday.
    pub fn thu() -> (m: WeekdayFlags)
        ensures
            forall|i: int| #![auto] m.has_idx(i) <==> i == 3,
    {
        WeekdayFlags::from_weekday(Weekday::Thu)
    }

    /// The singleton set for Friday.
    pub fn fri() -> (m: WeekdayFlags)
        ensures
            forall|i: int| #![auto] m.has_idx(i) <==> i == 4,
    {
        WeekdayFlags::from_weekday(Weekday::Fri)
    }

    /// The singleton set for Saturday.
    pub fn sat() -> (m: WeekdayFlags)
        ensures
            forall|i: int| #![auto] m.has_idx(i) <==> i == 5,
    {
        WeekdayFlags::from_weekday(Weekday::Sat)
    }

    /// The singleton set for Sunday.
    pub fn sun() -> (m: WeekdayFlags)
        ensures
            forall|i: int| #![auto] m.has_idx(i) <==> i == 6,
    {
        WeekdayFlags::from_weekday(Weekday::Sun)
    }

    /// The set of all seven weekdays.
    pub fn any() -> (m: WeekdayFlags)
        ensures
            forall|i: int| #![auto] m.has_idx(i) <==> 0 <= i < 7,
            m.is_all_spec(),
    {
        let m = WeekdayFlags { bits: 127 };
        proof {
            lemma_bit_tests(127u8);
            assert(127u8 & 1u8 != 0 && 127u8 & 2u8 != 0 && 127u8 & 4u8 != 0 && 127u8 & 8u8 != 0
                && 127u8 & 16u8 != 0 && 127u8 & 32u8 != 0 && 127u8 & 64u8 != 0) by (bit_vector);
            assert forall|i: int| 0 <= i < 7 implies m.has_idx(i) by {
                if i == 0 {
                    assert(bit_at(127u8, 0));
                } else if i == 1 {
                    assert(bit_at(127u8, 1));
                } else if i == 2 {
                    assert(bit_at(127u8, 2));
                } else if i == 3 {
                    assert(bit_at(127u8, 3));
                } else if i == 4 {
                    assert(bit_at(127u8, 4));
                } else if i == 5 {
                    assert(bit_at(127u8, 5));
                } else {
                    assert(bit_at(127u8, 6));
                }
            }
        }
        m
    }

    /// The set of the five weekdays Monday through Friday.
    pub fn midweek() -> (m: WeekdayFlags)
        ensures
            forall|i: int| #![auto] m.has_idx(i) <==> 0 <= i < 5,
    {
        let m = WeekdayFlags { bits: 31 };
        proof {
            lemma_bit_tests(31u8);
            assert(31u8 & 1u8 != 0 && 31u8 & 2u8 != 0 && 31u8 & 4u8 != 0 && 31u8 & 8u8 != 0
                && 31u8 & 16u8 != 0 && 31u8 & 32u8 == 0 && 31u8 & 64u8 == 0) by (bit_vector);
            assert forall|i: int| #![auto] m.has_idx(i) <==> 0 <= i < 5 by {
                if i == 0 {
                    assert(bit_at(31u8, 0));
                } else if i == 1 {
                    assert(bit_at(31u8, 1));
                } else if i == 2 {
                    assert(bit_at(31u8, 2));
                } else if i == 3 {
                    assert(bit_at(31u8, 3));
                } else if i == 4 {
                    assert(bit_at(31u8, 4));
                }
            }
        }
        m
    }

    /// The set of the two weekend days, Saturday and Sunday.
    pub fn weekend() -> (m: WeekdayFlags)
        ensures
            forall|i: int| #![auto] m.has_idx(i) <==> (i == 5 || i == 6),
    {
        let m = WeekdayFlags { bits: 96 };
        proof {
            lemma_bit_tests(96u8);
            assert(96u8 & 1u8 == 0 && 96u8 & 2u8 == 0 && 96u8 & 4u8 == 0 && 96u8 & 8u8 == 0
                && 96u8 & 16u8 == 0 && 96u8 & 32u8 != 0 && 96u8 & 64u8 != 0) by (bit_vector);
            assert forall|i: int| #![auto] m.has_idx(i) <==> (i == 5 || i == 6) by {
                if i == 5 {
                    assert(bit_at(96u8, 5));
                } else if i == 6 {
                    assert(bit_at(96u8, 6));
                }
            }
        }
        m
    }

    /// The set holding exactly one weekday.
    pub fn from_weekday(weekday: Weekday) -> (m: WeekdayFlags)
        ensures
            forall|i: int| #![auto] m.has_idx(i) <==> i == weekday.idx(),
            m.bits == (1u8 << (weekday.idx() as u8)),
    {
        let n = weekday.number();
        let m = WeekdayFlags { bits: 1u8 << n };
        proof {
            lemma_single_bit(n);
            assert forall|i: int| #![auto] m.has_idx(i) <==> i == weekday.idx() by {
                if 0 <= i < 7 {
                    let k: u8 = i as u8;
                    assert((((1u8 << n) >> k) & 1u8 == 1u8) <==> k == n);
                }
            }
        }
        m
    }

    /// The weekday of a set that holds exactly one weekday.
    ///
    /// The set must be a singleton: asking for the weekday of an empty or a
    /// larger set is a caller error.
    pub fn to_weekday(&self) -> (w: Weekday)
        requires
            exists|k: int| 0 <= k < 7 && self.bits == #[trigger] (1u8 << (k as u8)),
        ensures
            forall|i: int| #![auto] self.has_idx(i) <==> i == w.idx(),
    {
        proof {
            let k = choose|k: int| 0 <= k < 7 && self.bits == #[trigger] (1u8 << (k as u8));
            lemma_single_bit(k as u8);
            assert(bit_at(self.bits, k));
            assert(first_set_from(self.bits, 0) == k);
        }
        let p = self.first_set_at_or_after(0);
        Weekday::from_index(p)
    }

    /// The smallest position `k` with `i <= k < 7` whose bit is set, or 7
    /// if there is none.
    fn first_set_at_or_after(&self, i: u8) -> (k: u8)
        requires
            i <= 7,
        ensures
            k as int == first_set_from(self.bits, i as int),
    {
        let mut k: u8 = i;
        while k < 7
            invariant
                i <= k <= 7,
                forall|j: int| i as int <= j < k as int ==> !bit_at(self.bits, j),
            decreases 7 - k,
        {
            if (self.bits >> k) & 1u8 == 1u8 {
                proof {
                    assert(bit_at(self.bits, k as int));
                }
                return k;
            }
            proof {
                assert(!bit_at(self.bits, k as int));
            }
            k += 1;
        }
        7
    }

    /// Membership test in the style of a bit-set: true iff every bit of
    /// `other` is also set in `self`.
    pub fn contains(&self, other: WeekdayFlags) -> (r: bool)
        ensures
            r == (self.bits & other.bits == other.bits),
    {
        self.bits & other.bits == other.bits
    }

    /// True iff all seven weekdays are in the set.
    pub fn is_all(&self) -> (r: bool)
        ensures
            r == self.is_all_spec(),
    {
        let r = self.bits & 127 == 127;
        proof {
            lemma_bit_tests(self.bits);
            let b = self.bits;
            assert((b & 127u8 == 127u8) <==> (b & 1u8 != 0 && b & 2u8 != 0 && b & 4u8 != 0 && b
                & 8u8 != 0 && b & 16u8 != 0 && b & 32u8 != 0 && b & 64u8 != 0)) by (bit_vector);
            if r {
                assert forall|i: int| 0 <= i < 7 implies self.has_idx(i) by {
                    if i == 0 {
                        assert(bit_at(self.bits, 0));
                    } else if i == 1 {
                        assert(bit_at(self.bits, 1));
                    } else if i == 2 {
                        assert(bit_at(self.bits, 2));
                    } else if i == 3 {
                        assert(bit_at(self.bits, 3));
                    } else if i == 4 {
                        assert(bit_at(self.bits, 4));
                    } else if i == 5 {
                        assert(bit_at(self.bits, 5));
                    } else {
                        assert(bit_at(self.bits, 6));
                    }
                }
            } else {
                assert(!(self.has_idx(0) && self.has_idx(1) && self.has_idx(2) && self.has_idx(3)
                    && self.has_idx(4) && self.has_idx(5) && self.has_idx(6)));
            }
        }
        r
    }

    /// The union of two sets of weekdays.
    pub fn union(&self, other: WeekdayFlags) -> (m: WeekdayFlags)
        ensures
            forall|i: int| #![auto] m.has_idx(i) <==> self.has_idx(i) || other.has_idx(i),
    {
        let m = WeekdayFlags { bits: self.bits | other.bits };
        proof {
            assert(forall|x: u8, y: u8, k: u8|
                k < 7 ==> ((((x | y) >> k) & 1u8 == 1u8) <==> ((x >> k) & 1u8 == 1u8 || (y >> k)
                    & 1u8 == 1u8))) by (bit_vector);
            assert forall|i: int| #![auto]
                m.has_idx(i) <==> self.has_idx(i) || other.has_idx(i) by {
                if 0 <= i < 7 {
                    let k: u8 = i as u8;
                    assert((((self.bits | other.bits) >> k) & 1u8 == 1u8) <==> ((self.bits >> k)
                        & 1u8 == 1u8 || (other.bits >> k) & 1u8 == 1u8));
                }
            }
        }
        m
    }

    /// The next allowed weekday strictly after `current_dat`, searching
    /// circularly through the week, by a linear scan over positions.
    pub fn next_weekday(&self, current_dat: Weekday) -> (w: Weekday)
        requires
            self.nonempty_spec(),
        ensures
            w.idx() == next_in_mask(*self, current_dat.idx()),
    {
        let n = current_dat.number();
        let a = self.first_set_at_or_after(n + 1);
        if a < 7 {
            Weekday::from_index(a)
        } else {
            let b = self.first_set_at_or_after(0);
            Weekday::from_index(b)
        }
    }

    /// The next allowed weekday strictly after `current_dat`, searching
    /// circularly through the week, by single-bit mask tests.
    pub fn next_weekday_bitwise(&self, current_dat: Weekday) -> (w: Weekday)
        requires
            self.nonempty_spec(),
        ensures
            w.idx() == next_in_mask(*self, current_dat.idx()),
    {
        let n = current_dat.number();
        let mut k: u8 = n + 1;
        while k < 7
            invariant
                n < 7,
                n as int == current_dat.idx(),
                n + 1 <= k <= 7,
                forall|j: int| n as int + 1 <= j < k as int ==> !bit_at(self.bits, j),
            decreases 7 - k,
        {
            let flag: u8 = 1u8 << k;
            if self.bits & flag != 0 {
                proof {
                    let kk = k;
                    let b = self.bits;
                    assert((b & (1u8 << kk) != 0) == ((b >> kk) & 1u8 == 1u8)) by (bit_vector)
                        requires
                            kk < 7,
                    ;
                    assert(bit_at(self.bits, k as int));
                }
                return Weekday::from_index(k);
            }
            proof {
                let kk = k;
                let b = self.bits;
                assert((b & (1u8 << kk) != 0) == ((b >> kk) & 1u8 == 1u8)) by (bit_vector)
                    requires
                        kk < 7,
                ;
                assert(!bit_at(self.bits, k as int));
            }
            k += 1;
        }
        self.first_valid_weekday_bitwise()
    }

    /// The smallest allowed weekday strictly before `current_dat`, or
    /// `current_dat` itself if no allowed weekday lies before it.
    pub fn first_valid_weekday(&self, current_dat: Weekday) -> (w: Weekday)
        ensures
            w.idx() == first_before_in_mask(*self, current_dat.idx()),
    {
        let b = self.first_set_at_or_after(0);
        if b < current_dat.number() {
            Weekday::from_index(b)
        } else {
            current_dat
        }
    }

    /// The smallest allowed weekday of the set, found by single-bit mask
    /// tests from the low end.
    pub fn first_valid_weekday_bitwise(&self) -> (w: Weekday)
        requires
            self.nonempty_spec(),
        ensures
            w.idx() == first_set_from(self.bits, 0),
    {
        proof {
            lemma_bit_tests(self.bits);
        }
        if self.bits & 1 != 0 {
            Weekday::Mon
        } else if self.bits & 2 != 0 {
            Weekday::Tue
        } else if self.bits & 4 != 0 {
            Weekday::Wed
        } else if self.bits & 8 != 0 {
            Weekday::Thu
        } else if self.bits & 16 != 0 {
            Weekday::Fri
        } else if self.bits & 32 != 0 {
            Weekday::Sat
        } else if self.bits & 64 != 0 {
            Weekday::Sun
        } else {
            unreached()
        }
    }

    /// All weekdays of the set, in ascending Monday-to-Sunday order.
    pub fn extract_weekdays(&self) -> (r: Vec<Weekday>)
        ensures
            forall|a: int| 0 <= a < r@.len() ==> self.has(#[trigger] r@[a]),
            forall|a: int, b: int| 0 <= a < b < r@.len() ==> r@[a].idx() < r@[b].idx(),
            forall|i: int| #![auto]
                self.has_idx(i) ==> exists|a: int| 0 <= a < r@.len() && r@[a].idx() == i,
    {
        let mut r: Vec<Weekday> = Vec::new();
        let mut k: u8 = 0;
        while k < 7
            invariant
                k <= 7,
                forall|a: int|
                    0 <= a < r@.len() ==> self.has(#[trigger] r@[a]) && r@[a].idx() < k as int,
                forall|a: int, b: int| 0 <= a < b < r@.len() ==> r@[a].idx() < r@[b].idx(),
                forall|i: int| #![auto]
                    0 <= i < k as int && self.has_idx(i) ==> exists|a: int|
                        0 <= a < r@.len() && r@[a].idx() == i,
            decreases 7 - k,
        {
            if (self.bits >> k) & 1u8 == 1u8 {
                proof {
                    assert(bit_at(self.bits, k as int));
                }
                let w = Weekday::from_index(k);
                let ghost rold: Seq<Weekday> = r@;
                r.push(w);
                proof {
                    assert(r@ == rold.push(w));
                    assert forall|i: int| #![auto]
                        0 <= i < k as int + 1 && self.has_idx(i) implies exists|a: int|
                        0 <= a < r@.len() && r@[a].idx() == i by {
                        if i == k as int {
                            assert(r@[r@.len() - 1].idx() == i);
                        } else if 0 <= i < k as int && self.has_idx(i) {
                            let a = choose|a: int| 0 <= a < rold.len() && rold[a].idx() == i;
                            assert(r@[a].idx() == i);
                        }
                    }
                }
            } else {
                proof {
                    assert(!bit_at(self.bits, k as int));
                }
            }
            k += 1;
        }
        r
    }
}

/// Containment of a single-bit mask agrees with the bit test at its
/// position.
pub proof fn lemma_contains_single(b: u8, k: u8)
    by (bit_vector)
    requires
        k < 7,
    ensures
        (b & (1u8 << k) == (1u8 << k)) <==> ((b >> k) & 1u8 == 1u8),
{
}

/// What `first_set_from` returns: a set position at or after `i` when one
/// exists, below every other such position, and 7 otherwise.
pub proof fn lemma_first_set_from_properties(b: u8, i: int)
    ensures
        first_set_from(b, i) < 7 ==> i <= first_set_from(b, i) && bit_at(b, first_set_from(b, i)),
        forall|k: int| 0 <= k < 7 && i <= k && bit_at(b, k) ==> first_set_from(b, i) <= k,
{
    assert forall|k: int| 0 <= k < 7 && i <= k && bit_at(b, k) implies first_set_from(b, i)
        <= k by {
        if k == 0 {
        } else if k == 1 {
        } else if k == 2 {
        } else if k == 3 {
        } else if k == 4 {
        } else if k == 5 {
        } else {
        }
    }
}

impl WeekdayFlags {
    /// Membership test for one weekday.
    pub fn has_weekday(&self, w: Weekday) -> (r: bool)
        ensures
            r == self.has_idx(w.idx()),
    {
        let f = WeekdayFlags::from_weekday(w);
        let r = self.contains(f);
        proof {
            lemma_contains_single(self.bits, w.idx() as u8);
        }
        r
    }
}

/// The number of days to move forward, zero through six, to pass from
/// weekday `current_dat` to weekday `next_dat`, wrapping over the week end.
pub fn days_until(current_dat: Weekday, next_dat: Weekday) -> (d: i32)
    ensures
        d as int == (next_dat.idx() - current_dat.idx()) % 7,
        0 <= d < 7,
        (current_dat.idx() + d as int) % 7 == next_dat.idx(),
{
    let c = current_dat.number();
    let n = next_dat.number();
    let d = (7 + n - c) % 7;
    proof {
        let diff = next_dat.idx() - current_dat.idx();
        vstd::arithmetic::div_mod::lemma_mod_add_multiples_vanish(diff, 7);
        assert(d as int == (7 + diff) % 7);
        vstd::arithmetic::div_mod::lemma_add_mod_noop_right(
            current_dat.idx(),
            next_dat.idx() - current_dat.idx(),
            7,
        );
        vstd::arithmetic::div_mod::lemma_small_mod(next_dat.idx() as nat, 7nat);
    }
    d as i32
}

} // verus!
