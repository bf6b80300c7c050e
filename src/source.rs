//! Streams of candidates for the sieves to test.
//!
//! A candidate source yields a strictly increasing sequence of integers, each at
//! least 2. Its whole sequence is fixed when it is made; pulling only moves its
//! position forward. A source ends where its next value would not fit in a `u64`.

use vstd::prelude::*;

verus! {

/// A restartable-by-construction stream of candidates.
pub trait CandidateSource: Sized {
    /// The `i`-th value of the whole sequence, `None` past its end.
    spec fn value_at(&self, i: nat) -> Option<u64>;

    /// How many values have been taken so far.
    spec fn position(&self) -> nat;

    /// The source's internal invariant.
    spec fn wf(&self) -> bool;

    /// The sequence is strictly increasing, at least 2 everywhere, and defined
    /// at every index already taken.
    proof fn lemma_sequence(&self)
        requires
            self.wf(),
        ensures
            forall|i: nat, j: nat|
                i < j && #[trigger] self.value_at(j) is Some ==> #[trigger] self.value_at(i) is Some
                    && self.value_at(i)->Some_0 < self.value_at(j)->Some_0,
            forall|i: nat| #[trigger] self.value_at(i) is Some ==> self.value_at(i)->Some_0 >= 2,
            forall|i: nat| i < self.position() ==> #[trigger] self.value_at(i) is Some,
    ;

    /// Takes the value at the current position, if there is one.
    fn next(&mut self) -> (r: Option<u64>)
        requires
            old(self).wf(),
        ensures
            final(self).wf(),
            r == old(self).value_at(old(self).position()),
            final(self).position() == if r is Some {
                old(self).position() + 1
            } else {
                old(self).position()
            },
            forall|i: nat| #[trigger] final(self).value_at(i) == old(self).value_at(i),
    ;

    /// An independent cursor over the same sequence, at the same position.
    fn duplicate(&self) -> (r: Self)
        requires
            self.wf(),
        ensures
            r.wf(),
            r.position() == self.position(),
            forall|i: nat| #[trigger] r.value_at(i) == self.value_at(i),
    ;
}

/// `a` and `b` run over the same sequence.
pub open spec fn same_values<I: CandidateSource>(a: I, b: I) -> bool {
    forall|i: nat| #[trigger] a.value_at(i) == b.value_at(i)
}

/// The value of `x` at index `i`, as an integer.
pub open spec fn val<I: CandidateSource>(x: I, i: nat) -> int {
    x.value_at(i)->Some_0 as int
}

/// The integers 2, 3, 4, 5, ...
pub struct IntegerCandidates {
    current: u64,
    exhausted: bool,
}

/// 2, 3, 4, ...
pub fn integer_candidates() -> (r: IntegerCandidates)
    ensures
        r.wf(),
        r.position() == 0,
{
    IntegerCandidates { current: 2, exhausted: false }
}

impl CandidateSource for IntegerCandidates {
    open spec fn value_at(&self, i: nat) -> Option<u64> {
        if i + 2 <= u64::MAX {
            Some((i + 2) as u64)
        } else {
            None
        }
    }

    closed spec fn position(&self) -> nat {
        if self.exhausted {
            (u64::MAX - 1) as nat
        } else {
            (self.current - 2) as nat
        }
    }

    closed spec fn wf(&self) -> bool {
        &&& self.current >= 2
        &&& self.exhausted ==> self.current == u64::MAX
    }

    proof fn lemma_sequence(&self) {
    }

    fn next(&mut self) -> (r: Option<u64>) {
        if self.exhausted {
            return None;
        }
        let r = self.current;
        if self.current == u64::MAX {
            self.exhausted = true;
        } else {
            self.current = self.current + 1;
        }
        Some(r)
    }

    fn duplicate(&self) -> (r: Self) {
        IntegerCandidates { current: self.current, exhausted: self.exhausted }
    }
}

/// 2 followed by the odd integers from 3 on.
pub struct OddsWith2 {
    current: u64,
    exhausted: bool,
}

/// 2, 3, 5, 7, 9, ...
pub fn odds_with_2() -> (r: OddsWith2)
    ensures
        r.wf(),
        r.position() == 0,
{
    OddsWith2 { current: 2, exhausted: false }
}

impl CandidateSource for OddsWith2 {
    open spec fn value_at(&self, i: nat) -> Option<u64> {
        if i == 0 {
            Some(2)
        } else if 2 * i + 1 <= u64::MAX {
            Some((2 * i + 1) as u64)
        } else {
            None
        }
    }

    closed spec fn position(&self) -> nat {
        if self.exhausted {
            ((u64::MAX + 1) / 2) as nat
        } else if self.current == 2 {
            0
        } else {
            ((self.current - 1) / 2) as nat
        }
    }

    closed spec fn wf(&self) -> bool {
        &&& self.current == 2 || (self.current >= 3 && self.current % 2 == 1)
        &&& self.exhausted ==> self.current == u64::MAX
    }

    proof fn lemma_sequence(&self) {
    }

    fn next(&mut self) -> (r: Option<u64>) {
        if self.exhausted {
            return None;
        }
        let r = self.current;
        if self.current == 2 {
            self.current = 3;
        } else if self.current == u64::MAX {
            self.exhausted = true;
        } else {
            self.current = self.current + 2;
        }
        Some(r)
    }

    fn duplicate(&self) -> (r: Self) {
        OddsWith2 { current: self.current, exhausted: self.exhausted }
    }
}


/// The gaps between consecutive integers that 2, 3, 5 and 7 do not divide,
/// starting from 11; they repeat with period 48.
pub open spec fn wheel_holes() -> Seq<u64> {
    seq![
        2, 4, 2, 4, 6, 2, 6, 4, 2, 4, 6, 6, 2, 6, 4, 2, 6, 4, 6, 8, 4, 2, 4, 2,
        4, 8, 6, 4, 6, 2, 4, 6, 2, 6, 6, 4, 2, 4, 6, 2, 6, 4, 2, 4, 2, 10, 2, 10,
    ]
}

/// The gap at index `i` of the cyclic table.
fn wheel_hole(i: usize) -> (r: u64)
    requires
        i < 48,
    ensures
        r == wheel_holes()[i as int],
{
    let holes: [u64; 48] = [
        2, 4, 2, 4, 6, 2, 6, 4, 2, 4, 6, 6, 2, 6, 4, 2, 6, 4, 6, 8, 4, 2, 4, 2,
        4, 8, 6, 4, 6, 2, 4, 6, 2, 6, 6, 4, 2, 4, 6, 2, 6, 4, 2, 4, 2, 10, 2, 10,
    ];
    assert(holes@ == wheel_holes());
    holes[i]
}

/// The wheel's gap table, cycled without end.
pub struct Wheel {
    index: usize,
}

impl Wheel {
    /// Where in the table the next gap is read.
    pub closed spec fn index(&self) -> nat {
        self.index as nat
    }

    pub closed spec fn wf(&self) -> bool {
        self.index < 48
    }

    /// The next gap; the table starts over after its last entry.
    pub fn next(&mut self) -> (r: u64)
        requires
            old(self).wf(),
        ensures
            final(self).wf(),
            r == wheel_holes()[old(self).index() as int],
            final(self).index() == (old(self).index() + 1) % 48,
    {
        let r = wheel_hole(self.index);
        if self.index == 47 {
            self.index = 0;
        } else {
            self.index = self.index + 1;
        }
        r
    }
}

/// The gap table of the 2·3·5·7 wheel, from its first entry.
pub fn wheel_2357() -> (r: Wheel)
    ensures
        r.wf(),
        r.index() == 0,
{
    Wheel { index: 0 }
}

/// The `i`-th value of the spin wheel: 11, then each next value one gap further.
pub open spec fn wheel_value(i: nat) -> int
    decreases i,
{
    if i == 0 {
        11
    } else {
        wheel_value((i - 1) as nat) + wheel_holes()[((i - 1) % 48) as int]
    }
}

/// Each gap of the table is at least 2.
pub proof fn lemma_holes_positive()
    ensures
        forall|k: int| 0 <= k < 48 ==> #[trigger] wheel_holes()[k] >= 2,
{
    assert forall|k: int| 0 <= k < 48 implies #[trigger] wheel_holes()[k] >= 2 by {
        assert(wheel_holes()[k] >= 2);
    }
}

/// The spin wheel's values increase strictly.
pub proof fn lemma_wheel_increasing(i: nat, j: nat)
    requires
        i < j,
    ensures
        wheel_value(i) < wheel_value(j),
    decreases j,
{
    lemma_holes_positive();
    if i + 1 < j {
        lemma_wheel_increasing(i, (j - 1) as nat);
    }
}

/// The integers from 11 on that 2, 3, 5 and 7 do not divide, produced by
/// adding the gaps of a wheel in turn.
pub struct SpinWheel {
    wheel: Wheel,
    n: u64,
    exhausted: bool,
    pos: Ghost<nat>,
}

impl Default for SpinWheel {
    fn default() -> (r: Self)
        ensures
            r.wf(),
            r.position() == 0,
    {
        SpinWheel { wheel: wheel_2357(), n: 11, exhausted: false, pos: Ghost(0) }
    }
}

impl CandidateSource for SpinWheel {
    open spec fn value_at(&self, i: nat) -> Option<u64> {
        if wheel_value(i) <= u64::MAX {
            Some(wheel_value(i) as u64)
        } else {
            None
        }
    }

    closed spec fn position(&self) -> nat {
        self.pos@
    }

    closed spec fn wf(&self) -> bool {
        &&& self.wheel.wf()
        &&& self.wheel.index() == self.pos@ % 48
        &&& !self.exhausted ==> self.n == wheel_value(self.pos@)
        &&& self.exhausted ==> self.pos@ > 0 && wheel_value(self.pos@) > u64::MAX
            && wheel_value((self.pos@ - 1) as nat) <= u64::MAX
    }

    proof fn lemma_sequence(&self) {
        assert forall|i: nat, j: nat|
            i < j && #[trigger] self.value_at(j) is Some implies #[trigger] self.value_at(i) is Some
                && self.value_at(i)->Some_0 < self.value_at(j)->Some_0 by {
            lemma_wheel_increasing(i, j);
            if i > 0 {
                lemma_wheel_increasing(0, i);
            }
        }
        assert forall|i: nat| #[trigger] self.value_at(i) is Some implies self.value_at(i)->Some_0
            >= 2 by {
            if i > 0 {
                lemma_wheel_increasing(0, i);
            }
        }
        assert forall|i: nat| i < self.position() implies #[trigger] self.value_at(i) is Some by {
            if self.exhausted {
                if i < self.pos@ - 1 {
                    lemma_wheel_increasing(i, (self.pos@ - 1) as nat);
                }
            } else {
                lemma_wheel_increasing(i, self.pos@);
            }
        }
    }

    fn next(&mut self) -> (r: Option<u64>) {
        if self.exhausted {
            return None;
        }
        let ghost p = self.pos@;
        let gap = self.wheel.next();
        let r = self.n;
        assert(wheel_value(p + 1) == wheel_value(p) + gap);
        if self.n <= u64::MAX - gap {
            self.n = self.n + gap;
        } else {
            self.exhausted = true;
        }
        self.pos = Ghost(p + 1);
        Some(r)
    }

    fn duplicate(&self) -> (r: Self) {
        SpinWheel {
            wheel: Wheel { index: self.wheel.index },
            n: self.n,
            exhausted: self.exhausted,
            pos: Ghost(self.pos@),
        }
    }
}

/// The sum of the first `i` gaps of the table.
pub open spec fn holes_sum(i: nat) -> int
    decreases i,
{
    if i == 0 || i > 48 {
        0
    } else {
        holes_sum((i - 1) as nat) + wheel_holes()[i - 1]
    }
}

/// Neither 2, 3, 5 nor 7 divides `x`.
pub open spec fn coprime_2357(x: int) -> bool {
    &&& x % 2 != 0
    &&& x % 3 != 0
    &&& x % 5 != 0
    &&& x % 7 != 0
}

/// The 48 gaps of the table add up to 2·3·5·7 = 210.
pub proof fn lemma_holes_sum()
    ensures
        holes_sum(48) == 210,
{
    assert(holes_sum(0) == 0);
    assert(holes_sum(1) == 2);
    assert(holes_sum(2) == 6);
    assert(holes_sum(3) == 8);
    assert(holes_sum(4) == 12);
    assert(holes_sum(5) == 18);
    assert(holes_sum(6) == 20);
    assert(holes_sum(7) == 26);
    assert(holes_sum(8) == 30);
    assert(holes_sum(9) == 32);
    assert(holes_sum(10) == 36);
    assert(holes_sum(11) == 42);
    assert(holes_sum(12) == 48);
    assert(holes_sum(13) == 50);
    assert(holes_sum(14) == 56);
    assert(holes_sum(15) == 60);
    assert(holes_sum(16) == 62);
    assert(holes_sum(17) == 68);
    assert(holes_sum(18) == 72);
    assert(holes_sum(19) == 78);
    assert(holes_sum(20) == 86);
    assert(holes_sum(21) == 90);
    assert(holes_sum(22) == 92);
    assert(holes_sum(23) == 96);
    assert(holes_sum(24) == 98);
    assert(holes_sum(25) == 102);
    assert(holes_sum(26) == 110);
    assert(holes_sum(27) == 116);
    assert(holes_sum(28) == 120);
    assert(holes_sum(29) == 126);
    assert(holes_sum(30) == 128);
    assert(holes_sum(31) == 132);
    assert(holes_sum(32) == 138);
    assert(holes_sum(33) == 140);
    assert(holes_sum(34) == 146);
    assert(holes_sum(35) == 152);
    assert(holes_sum(36) == 156);
    assert(holes_sum(37) == 158);
    assert(holes_sum(38) == 162);
    assert(holes_sum(39) == 168);
    assert(holes_sum(40) == 170);
    assert(holes_sum(41) == 176);
    assert(holes_sum(42) == 180);
    assert(holes_sum(43) == 182);
    assert(holes_sum(44) == 186);
    assert(holes_sum(45) == 188);
    assert(holes_sum(46) == 198);
    assert(holes_sum(47) == 200);
    assert(holes_sum(48) == 210);
}

/// The values of one turn of the wheel.
proof fn lemma_turn_values()
    ensures
        wheel_value(0) == 11,
        wheel_value(1) == 13,
        wheel_value(2) == 17,
        wheel_value(3) == 19,
        wheel_value(4) == 23,
        wheel_value(5) == 29,
        wheel_value(6) == 31,
        wheel_value(7) == 37,
        wheel_value(8) == 41,
        wheel_value(9) == 43,
        wheel_value(10) == 47,
        wheel_value(11) == 53,
        wheel_value(12) == 59,
        wheel_value(13) == 61,
        wheel_value(14) == 67,
        wheel_value(15) == 71,
        wheel_value(16) == 73,
        wheel_value(17) == 79,
        wheel_value(18) == 83,
        wheel_value(19) == 89,
        wheel_value(20) == 97,
        wheel_value(21) == 101,
        wheel_value(22) == 103,
        wheel_value(23) == 107,
        wheel_value(24) == 109,
        wheel_value(25) == 113,
        wheel_value(26) == 121,
        wheel_value(27) == 127,
        wheel_value(28) == 131,
        wheel_value(29) == 137,
        wheel_value(30) == 139,
        wheel_value(31) == 143,
        wheel_value(32) == 149,
        wheel_value(33) == 151,
        wheel_value(34) == 157,
        wheel_value(35) == 163,
        wheel_value(36) == 167,
        wheel_value(37) == 169,
        wheel_value(38) == 173,
        wheel_value(39) == 179,
        wheel_value(40) == 181,
        wheel_value(41) == 187,
        wheel_value(42) == 191,
        wheel_value(43) == 193,
        wheel_value(44) == 197,
        wheel_value(45) == 199,
        wheel_value(46) == 209,
        wheel_value(47) == 211,
        wheel_value(48) == 221,
{
    assert(wheel_value(0) == 11);
    assert(wheel_value(1) == 13);
    assert(wheel_value(2) == 17);
    assert(wheel_value(3) == 19);
    assert(wheel_value(4) == 23);
    assert(wheel_value(5) == 29);
    assert(wheel_value(6) == 31);
    assert(wheel_value(7) == 37);
    assert(wheel_value(8) == 41);
    assert(wheel_value(9) == 43);
    assert(wheel_value(10) == 47);
    assert(wheel_value(11) == 53);
    assert(wheel_value(12) == 59);
    assert(wheel_value(13) == 61);
    assert(wheel_value(14) == 67);
    assert(wheel_value(15) == 71);
    assert(wheel_value(16) == 73);
    assert(wheel_value(17) == 79);
    assert(wheel_value(18) == 83);
    assert(wheel_value(19) == 89);
    assert(wheel_value(20) == 97);
    assert(wheel_value(21) == 101);
    assert(wheel_value(22) == 103);
    assert(wheel_value(23) == 107);
    assert(wheel_value(24) == 109);
    assert(wheel_value(25) == 113);
    assert(wheel_value(26) == 121);
    assert(wheel_value(27) == 127);
    assert(wheel_value(28) == 131);
    assert(wheel_value(29) == 137);
    assert(wheel_value(30) == 139);
    assert(wheel_value(31) == 143);
    assert(wheel_value(32) == 149);
    assert(wheel_value(33) == 151);
    assert(wheel_value(34) == 157);
    assert(wheel_value(35) == 163);
    assert(wheel_value(36) == 167);
    assert(wheel_value(37) == 169);
    assert(wheel_value(38) == 173);
    assert(wheel_value(39) == 179);
    assert(wheel_value(40) == 181);
    assert(wheel_value(41) == 187);
    assert(wheel_value(42) == 191);
    assert(wheel_value(43) == 193);
    assert(wheel_value(44) == 197);
    assert(wheel_value(45) == 199);
    assert(wheel_value(46) == 209);
    assert(wheel_value(47) == 211);
    assert(wheel_value(48) == 221);
}

/// The values of one turn of the wheel are left undivided by 2, 3, 5 and 7.
proof fn lemma_first_turn()
    ensures
        forall|r: nat| r <= 48 ==> coprime_2357(#[trigger] wheel_value(r)),
        wheel_value(48) == 221,
{
    lemma_turn_values();
    assert forall|r: nat| r <= 48 implies coprime_2357(#[trigger] wheel_value(r)) by {
        assert(r == 0 || r == 1 || r == 2 || r == 3 || r == 4 || r == 5 || r == 6 || r == 7 || r == 8 || r == 9 || r == 10 || r == 11 || r == 12 || r == 13 || r == 14 || r == 15 || r == 16 || r == 17 || r == 18 || r == 19 || r == 20 || r == 21 || r == 22 || r == 23 || r == 24 || r == 25 || r == 26 || r == 27 || r == 28 || r == 29 || r == 30 || r == 31 || r == 32 || r == 33 || r == 34 || r == 35 || r == 36 || r == 37 || r == 38 || r == 39 || r == 40 || r == 41 || r == 42 || r == 43 || r == 44 || r == 45 || r == 46 || r == 47 || r == 48);
    }
}

/// Within one turn, 2, 3, 5 or 7 divides each integer that the wheel steps over.
proof fn lemma_turn_gaps(m: nat, y: int)
    requires
        m < 48,
        wheel_value(m) < y < wheel_value(m + 1),
    ensures
        !coprime_2357(y),
{
    lemma_turn_values();
    assert forall|y: int| 13 < y < 17 implies !coprime_2357(y) by {}
    assert forall|y: int| 19 < y < 23 implies !coprime_2357(y) by {}
    assert forall|y: int| 23 < y < 29 implies !coprime_2357(y) by {}
    assert forall|y: int| 31 < y < 37 implies !coprime_2357(y) by {}
    assert forall|y: int| 37 < y < 41 implies !coprime_2357(y) by {}
    assert forall|y: int| 43 < y < 47 implies !coprime_2357(y) by {}
    assert forall|y: int| 47 < y < 53 implies !coprime_2357(y) by {}
    assert forall|y: int| 53 < y < 59 implies !coprime_2357(y) by {}
    assert forall|y: int| 61 < y < 67 implies !coprime_2357(y) by {}
    assert forall|y: int| 67 < y < 71 implies !coprime_2357(y) by {}
    assert forall|y: int| 73 < y < 79 implies !coprime_2357(y) by {}
    assert forall|y: int| 79 < y < 83 implies !coprime_2357(y) by {}
    assert forall|y: int| 83 < y < 89 implies !coprime_2357(y) by {}
    assert forall|y: int| 89 < y < 97 implies !coprime_2357(y) by {}
    assert forall|y: int| 97 < y < 101 implies !coprime_2357(y) by {}
    assert forall|y: int| 103 < y < 107 implies !coprime_2357(y) by {}
    assert forall|y: int| 109 < y < 113 implies !coprime_2357(y) by {}
    assert forall|y: int| 113 < y < 121 implies !coprime_2357(y) by {}
    assert forall|y: int| 121 < y < 127 implies !coprime_2357(y) by {}
    assert forall|y: int| 127 < y < 131 implies !coprime_2357(y) by {}
    assert forall|y: int| 131 < y < 137 implies !coprime_2357(y) by {}
    assert forall|y: int| 139 < y < 143 implies !coprime_2357(y) by {}
    assert forall|y: int| 143 < y < 149 implies !coprime_2357(y) by {}
    assert forall|y: int| 151 < y < 157 implies !coprime_2357(y) by {}
    assert forall|y: int| 157 < y < 163 implies !coprime_2357(y) by {}
    assert forall|y: int| 163 < y < 167 implies !coprime_2357(y) by {}
    assert forall|y: int| 169 < y < 173 implies !coprime_2357(y) by {}
    assert forall|y: int| 173 < y < 179 implies !coprime_2357(y) by {}
    assert forall|y: int| 181 < y < 187 implies !coprime_2357(y) by {}
    assert forall|y: int| 187 < y < 191 implies !coprime_2357(y) by {}
    assert forall|y: int| 193 < y < 197 implies !coprime_2357(y) by {}
    assert forall|y: int| 199 < y < 209 implies !coprime_2357(y) by {}
    assert forall|y: int| 211 < y < 221 implies !coprime_2357(y) by {}
    assert(m == 0 || m == 1 || m == 2 || m == 3 || m == 4 || m == 5 || m == 6 || m == 7 || m == 8 || m == 9 || m == 10 || m == 11 || m == 12 || m == 13 || m == 14 || m == 15 || m == 16 || m == 17 || m == 18 || m == 19 || m == 20 || m == 21 || m == 22 || m == 23 || m == 24 || m == 25 || m == 26 || m == 27 || m == 28 || m == 29 || m == 30 || m == 31 || m == 32 || m == 33 || m == 34 || m == 35 || m == 36 || m == 37 || m == 38 || m == 39 || m == 40 || m == 41 || m == 42 || m == 43 || m == 44 || m == 45 || m == 46 || m == 47);
}

/// A turn of the wheel adds 210.
pub proof fn lemma_wheel_period(i: nat)
    ensures
        wheel_value(i + 48) == wheel_value(i) + 210,
    decreases i,
{
    if i == 0 {
        lemma_first_turn();
    } else {
        lemma_wheel_period((i - 1) as nat);
        assert(((i + 47) % 48) == ((i - 1) % 48) as int);
    }
}

/// Starting from 11 and adding the gaps in turn, cyclically, never reaches a
/// multiple of 2, 3, 5 or 7.
pub proof fn lemma_wheel_coprime(i: nat)
    ensures
        coprime_2357(wheel_value(i)),
    decreases i,
{
    if i <= 48 {
        lemma_first_turn();
    } else {
        lemma_wheel_coprime((i - 48) as nat);
        lemma_wheel_period((i - 48) as nat);
    }
}

/// No integer that 2, 3, 5 and 7 leave undivided lies strictly between two
/// consecutive values of the spin wheel.
pub proof fn lemma_wheel_no_skips(m: nat, y: int)
    requires
        wheel_value(m) < y < wheel_value(m + 1),
    ensures
        !coprime_2357(y),
    decreases m,
{
    if m < 48 {
        lemma_turn_gaps(m, y);
    } else {
        let q = (m - 48) as nat;
        lemma_wheel_period(q);
        lemma_wheel_period(q + 1);
        lemma_wheel_no_skips(q, y - 210);
    }
}

/// Every integer from 11 on lies between two consecutive wheel values.
proof fn lemma_wheel_locate(y: int) -> (m: nat)
    requires
        y >= 11,
    ensures
        wheel_value(m) <= y < wheel_value(m + 1),
    decreases y,
{
    lemma_turn_values();
    if y == 11 {
        0
    } else {
        let m = lemma_wheel_locate(y - 1);
        if y < wheel_value(m + 1) {
            m
        } else {
            lemma_wheel_increasing(m + 1, m + 2);
            m + 1
        }
    }
}

/// Every integer from 11 on that 2, 3, 5 and 7 do not divide is a value of
/// the spin wheel.
pub proof fn lemma_wheel_complete(y: int) -> (m: nat)
    requires
        y >= 11,
        coprime_2357(y),
    ensures
        wheel_value(m) == y,
{
    let m = lemma_wheel_locate(y);
    if wheel_value(m) < y {
        lemma_wheel_no_skips(m, y);
    }
    m
}

} // verus!
