//! The costs of transitions between candidates, and the likeness of lines.

use crate::graph::TransitInfo;
use crate::text::{eq_ignore_ascii_case, line_simi};
use vstd::prelude::*;

verus! {

/// What a routing run is told.
#[derive(Clone, Debug)]
pub struct RoutingOpts {
    /// The penalty of a second of travel, in units of `1e-7`.
    pub transition_pen: u64,
    /// Factors in hundredths.
    pub line_unmatched_punish_fact: u32,
    pub line_name_to_unmatched_punish_fact: u32,
    pub line_name_from_unmatched_punish_fact: u32,
    pub full_turn_punish_fac: u32,
    /// An angle in hundredths of a degree.
    pub full_turn_angle: u32,
    pub turn_restr_cost: u32,
    pub loop_ttl: u32,
    pub max_group_diff_seconds: u32,
}

impl Default for RoutingOpts {
    fn default() -> (r: Self)
        ensures
            r == (RoutingOpts {
                transition_pen: 0,
                line_unmatched_punish_fact: 100,
                line_name_to_unmatched_punish_fact: 100,
                line_name_from_unmatched_punish_fact: 100,
                full_turn_punish_fac: 0,
                full_turn_angle: 0,
                turn_restr_cost: 0,
                loop_ttl: 0,
                max_group_diff_seconds: 0,
            }),
    {
        RoutingOpts {
            transition_pen: 0,
            line_unmatched_punish_fact: 100,
            line_name_to_unmatched_punish_fact: 100,
            line_name_from_unmatched_punish_fact: 100,
            full_turn_punish_fac: 0,
            full_turn_angle: 0,
            turn_restr_cost: 0,
            loop_ttl: 0,
            max_group_diff_seconds: 0,
        }
    }
}

/// In which respects a line is like the one that is looked for.
#[derive(Clone, Copy, Debug, PartialEq, Eq, Structural)]
pub struct LineSimilarity {
    pub name_similar: bool,
    pub from_similar: bool,
    pub to_similar: bool,
}

/// In how many respects two lines are alike.
pub open spec fn similarity_score(s: LineSimilarity) -> int {
    (if s.name_similar {
        1int
    } else {
        0
    }) + (if s.from_similar {
        1int
    } else {
        0
    }) + (if s.to_similar {
        1int
    } else {
        0
    })
}

impl LineSimilarity {
    /// In how many respects the lines are alike.
    pub fn score(&self) -> (r: u8)
        ensures
            r == similarity_score(*self),
    {
        let a: u8 = if self.name_similar { 1 } else { 0 };
        let b: u8 = if self.from_similar { 1 } else { 0 };
        let c: u8 = if self.to_similar { 1 } else { 0 };
        a + b + c
    }
}

impl PartialOrd for LineSimilarity {
    fn partial_cmp(&self, other: &Self) -> (r: Option<std::cmp::Ordering>) {
        let a: u8 = self.score();
        let b: u8 = other.score();
        if a < b {
            Some(std::cmp::Ordering::Less)
        } else if a == b {
            Some(std::cmp::Ordering::Equal)
        } else {
            Some(std::cmp::Ordering::Greater)
        }
    }
}

impl vstd::std_specs::cmp::PartialOrdSpecImpl for LineSimilarity {
    open spec fn obeys_partial_cmp_spec() -> bool {
        true
    }

    open spec fn partial_cmp_spec(&self, other: &Self) -> Option<std::cmp::Ordering> {
        if similarity_score(*self) < similarity_score(*other) {
            Some(std::cmp::Ordering::Less)
        } else if similarity_score(*self) == similarity_score(*other) {
            Some(std::cmp::Ordering::Equal)
        } else {
            Some(std::cmp::Ordering::Greater)
        }
    }
}

/// The line that a trip runs on, and where it comes from and goes to.
#[derive(Debug)]
pub struct RoutingAttrs {
    pub short_name: String,
    pub line_from: String,
    pub line_to: String,
}

impl View for RoutingAttrs {
    type V = (Seq<char>, Seq<char>, Seq<char>);

    open spec fn view(&self) -> (Seq<char>, Seq<char>, Seq<char>) {
        (self.short_name@, self.line_from@, self.line_to@)
    }
}

impl Default for RoutingAttrs {
    fn default() -> (r: Self)
        ensures
            r@ == (Seq::<char>::empty(), Seq::<char>::empty(), Seq::<char>::empty()),
    {
        RoutingAttrs { short_name: String::new(), line_from: String::new(), line_to: String::new() }
    }
}

impl Clone for RoutingAttrs {
    fn clone(&self) -> (r: Self)
        ensures
            r@ == self@,
    {
        RoutingAttrs {
            short_name: self.short_name.clone(),
            line_from: self.line_from.clone(),
            line_to: self.line_to.clone(),
        }
    }
}

/// The first of two names that is not empty.
pub open spec fn first_name(a: Seq<char>, b: Seq<char>) -> Seq<char> {
    if a.len() == 0 {
        b
    } else {
        a
    }
}

impl RoutingAttrs {
    /// Fills the names that are empty with those of `other`.
    pub fn merge(&mut self, other: &RoutingAttrs)
        ensures
            final(self)@ == (
                first_name(old(self)@.0, other@.0),
                first_name(old(self)@.1, other@.1),
                first_name(old(self)@.2, other@.2),
            ),
    {
        if self.short_name.as_str().is_empty() {
            self.short_name = other.short_name.clone();
        }
        if self.line_from.as_str().is_empty() {
            self.line_from = other.line_from.clone();
        }
        if self.line_to.as_str().is_empty() {
            self.line_to = other.line_to.clone();
        }
    }

    /// What `simi` says of a line.
    pub open spec fn similarity(&self, info: &TransitInfo) -> LineSimilarity {
        let nothing = info@.0.len() == 0 && info@.1.len() == 0 && info@.2.len() == 0;
        LineSimilarity {
            name_similar: nothing || self@.0.len() == 0 || crate::text::similar_lines(
                info@.0,
                self@.0,
            ),
            from_similar: nothing || self@.1.len() == 0 || crate::text::same_ignore_case(
                info@.1,
                self@.1,
            ),
            to_similar: nothing || self@.2.len() == 0 || crate::text::same_ignore_case(
                info@.2,
                self@.2,
            ),
        }
    }

    /// In which respects a line is like this one. A name that is not known counts as alike, and so
    /// does everything about a line of which nothing is known.
    pub fn simi(&self, info: &TransitInfo) -> (r: LineSimilarity)
        ensures
            r == self.similarity(info),
    {
        if info.short_name.as_str().is_empty() && info.from_str.as_str().is_empty()
            && info.to_str.as_str().is_empty() {
            return LineSimilarity { name_similar: true, from_similar: true, to_similar: true };
        }
        LineSimilarity {
            name_similar: self.short_name.as_str().is_empty() || line_simi(
                info.short_name.as_str(),
                self.short_name.as_str(),
            ),
            from_similar: self.line_from.as_str().is_empty() || eq_ignore_ascii_case(
                info.from_str.as_str(),
                self.line_from.as_str(),
            ),
            to_similar: self.line_to.as_str().is_empty() || eq_ignore_ascii_case(
                info.to_str.as_str(),
                self.line_to.as_str(),
            ),
        }
    }
}

/// How the cost of a way becomes the weight of a transition.
pub trait TransWeight {
    spec fn spec_weight(c: u32, d: u64, time: i64, hop_dist: u64, opts: RoutingOpts) -> nat;

    spec fn spec_inv_weight(c: u128, opts: RoutingOpts) -> u32;

    spec fn spec_max_cost(hop_time: u128, opts: RoutingOpts) -> u32;

    spec fn spec_allows_fast_route() -> bool;

    spec fn spec_need_dist() -> bool;

    /// The weight, in units of `1e-8`, of a transition by a way of cost `c` and length `d`, of
    /// which the timetable says that it takes `time` nanoseconds. Lengths are in millimetres.
    fn weight(c: u32, d: u64, time: i64, hop_dist: u64, opts: &RoutingOpts) -> (r: u128)
        ensures
            r == Self::spec_weight(c, d, time, hop_dist, *opts),
            r < 0x1_0000_0000_0000_0000_0000_0000,
    ;

    /// The cost that a way of this weight has.
    fn inv_weight(c: u128, opts: &RoutingOpts) -> (r: u32)
        ensures
            r == Self::spec_inv_weight(c, *opts),
    ;

    /// The cost beyond which a way that takes `hop_time` nanoseconds is not looked for.
    fn max_cost(hop_time: u128, opts: &RoutingOpts) -> (r: u32)
        ensures
            r == Self::spec_max_cost(hop_time, *opts),
    ;

    fn allows_fast_route() -> (r: bool)
        ensures
            r == Self::spec_allows_fast_route(),
    ;

    fn need_dist() -> (r: bool)
        ensures
            r == Self::spec_need_dist(),
    ;
}

/// Weights that grow with the cost of the way.
pub struct ExpoTransWeight;

/// The largest number below `u32::MAX` and `n`.
pub open spec fn capped(n: nat) -> u32 {
    if n >= u32::MAX {
        u32::MAX
    } else {
        n as u32
    }
}

impl TransWeight for ExpoTransWeight {
    open spec fn spec_weight(c: u32, d: u64, time: i64, hop_dist: u64, opts: RoutingOpts) -> nat {
        (opts.transition_pen as nat) * (c as nat)
    }

    /// The quotient of weight and penalty, rounded to the nearest whole number.
    open spec fn spec_inv_weight(c: u128, opts: RoutingOpts) -> u32 {
        if opts.transition_pen == 0 {
            if c == 0 {
                0
            } else {
                u32::MAX
            }
        } else {
            capped(
                ((2 * (c as nat) + opts.transition_pen as nat) / (2 * (opts.transition_pen as nat))) as nat,
            )
        }
    }

    /// Three times the time, but at least three minutes, in tenths of a second, times the
    /// punishments, rounded up.
    open spec fn spec_max_cost(hop_time: u128, opts: RoutingOpts) -> u32 {
        let base: nat = if hop_time < 60_000_000_000 {
            60_000_000_000
        } else {
            hop_time as nat
        };
        let n = base * (opts.line_unmatched_punish_fact as nat) * (
        opts.line_name_to_unmatched_punish_fact as nat) * (
        opts.line_name_from_unmatched_punish_fact as nat) * 3;
        capped(((n + 99_999_999_999_999) / 100_000_000_000_000) as nat)
    }

    open spec fn spec_allows_fast_route() -> bool {
        true
    }

    open spec fn spec_need_dist() -> bool {
        false
    }

    fn weight(c: u32, d: u64, time: i64, hop_dist: u64, opts: &RoutingOpts) -> (r: u128) {
        let p: u128 = opts.transition_pen as u128;
        let x: u128 = c as u128;
        assert(p * x <= 0xffff_ffff_ffff_ffff * 0xffff_ffff) by (nonlinear_arith)
            requires
                p <= 0xffff_ffff_ffff_ffff,
                x <= 0xffff_ffff,
        ;
        p * x
    }

    fn inv_weight(c: u128, opts: &RoutingOpts) -> (r: u32) {
        if opts.transition_pen == 0 {
            if c == 0 {
                return 0;
            }
            return u32::MAX;
        }
        let p: u128 = opts.transition_pen as u128;
        let whole: u128 = c / p;
        let rest: u128 = c % p;
        let up: bool = 2 * rest >= p;
        proof {
            let q = (2 * (c as nat) + p as nat) / (2 * (p as nat));
            assert(c == p * whole + rest) by (nonlinear_arith)
                requires
                    p > 0,
                    whole == c / p,
                    rest == c % p,
            ;
            if up {
                assert(q == whole + 1) by (nonlinear_arith)
                    requires
                        p > 0,
                        c == p * whole + rest,
                        p <= 2 * rest,
                        rest < p,
                        q == (2 * (c as nat) + p as nat) / (2 * (p as nat)),
                ;
            } else {
                assert(q == whole) by (nonlinear_arith)
                    requires
                        p > 0,
                        c == p * whole + rest,
                        2 * rest < p,
                        0 <= rest,
                        q == (2 * (c as nat) + p as nat) / (2 * (p as nat)),
                ;
            }
        }
        if whole >= u32::MAX as u128 {
            u32::MAX
        } else if up {
            whole as u32 + 1
        } else {
            whole as u32
        }
    }

    fn max_cost(hop_time: u128, opts: &RoutingOpts) -> (r: u32) {
        let base: u128 = if hop_time < 60_000_000_000 {
            60_000_000_000
        } else {
            hop_time
        };
        let a: u32 = opts.line_unmatched_punish_fact;
        let b: u32 = opts.line_name_to_unmatched_punish_fact;
        let c: u32 = opts.line_name_from_unmatched_punish_fact;
        // The product is cut short as soon as it is known to be too large.
        let ab: u64 = mul_factors(a, b);
        let abc: u128 = mul_wide(ab, c as u64);
        let ghost n = base as nat * (a as nat) * (b as nat) * (c as nat) * 3;
        proof {
            assert(n == 3 * (base * abc)) by (nonlinear_arith)
                requires
                    n == base as nat * (a as nat) * (b as nat) * (c as nat) * 3,
                    abc == ab * c,
                    ab == a * b,
            ;
        }
        if abc == 0 {
            assert(base * abc == 0) by (nonlinear_arith)
                requires
                    abc == 0,
            ;
            return 0;
        }
        if abc > 0x400_0000_0000 || base > 0x4000_0000_0000_0000_0000 {
            assert(base * abc >= 0x2000_0000_0000_0000_0000) by (nonlinear_arith)
                requires
                    base >= 60_000_000_000,
                    abc >= 1,
                    abc > 0x400_0000_0000 || base > 0x4000_0000_0000_0000_0000,
            ;
            return u32::MAX;
        }
        assert(base * abc <= 0x4000_0000_0000_0000_0000 * 0x400_0000_0000) by (nonlinear_arith)
            requires
                base <= 0x4000_0000_0000_0000_0000,
                abc <= 0x400_0000_0000,
        ;
        let product: u128 = base * abc;
        let r: u128 = (3 * product + 99_999_999_999_999) / 100_000_000_000_000;
        if r >= u32::MAX as u128 {
            u32::MAX
        } else {
            r as u32
        }
    }

    fn allows_fast_route() -> (r: bool) {
        true
    }

    fn need_dist() -> (r: bool) {
        false
    }
}

fn mul_factors(a: u32, b: u32) -> (r: u64)
    ensures
        r == a * b,
{
    let x: u64 = a as u64;
    let y: u64 = b as u64;
    assert(x * y <= 0xffff_ffff * 0xffff_ffff) by (nonlinear_arith)
        requires
            x <= 0xffff_ffff,
            y <= 0xffff_ffff,
    ;
    x * y
}

fn mul_wide(a: u64, b: u64) -> (r: u128)
    ensures
        r == a * b,
{
    let x: u128 = a as u128;
    let y: u128 = b as u128;
    assert(x * y <= 0xffff_ffff_ffff_ffff * 0xffff_ffff_ffff_ffff) by (nonlinear_arith)
        requires
            x <= 0xffff_ffff_ffff_ffff,
            y <= 0xffff_ffff_ffff_ffff,
    ;
    x * y
}

/// The weight of a way grows with its cost, by the same amount for every unit, and the cost that a weight
/// stands for is the one that has it.
pub proof fn lemma_weight_and_cost(c: u32, d: u64, time: i64, hop_dist: u64, opts: RoutingOpts)
    requires
        opts.transition_pen > 0,
    ensures
        c < u32::MAX ==> ExpoTransWeight::spec_weight((c + 1) as u32, d, time, hop_dist, opts)
            == ExpoTransWeight::spec_weight(c, d, time, hop_dist, opts) + opts.transition_pen,
        ExpoTransWeight::spec_weight(0, d, time, hop_dist, opts) == 0,
        ExpoTransWeight::spec_inv_weight(
            ExpoTransWeight::spec_weight(c, d, time, hop_dist, opts) as u128,
            opts,
        ) == c,
{
    let p = opts.transition_pen as nat;
    let x = c as nat;
    assert(p * (x + 1) == p * x + p) by (nonlinear_arith);
    assert(p * 0 == 0);
    assert(p * x <= 0xffff_ffff_ffff_ffff * 0xffff_ffff) by (nonlinear_arith)
        requires
            p <= 0xffff_ffff_ffff_ffff,
            x <= 0xffff_ffff,
    ;
    let w = p * x;
    assert((2 * w + p) / (2 * p) == x) by (nonlinear_arith)
        requires
            w == p * x,
            p > 0,
    ;
}

/// The cost that a weight stands for has a weight that is off by at most half the penalty of a unit.
pub proof fn lemma_inverse_weight(w: u128, opts: RoutingOpts)
    requires
        opts.transition_pen > 0,
        w < opts.transition_pen * 0xffff_fff0,
    ensures
        -(opts.transition_pen as int) <= 2 * (ExpoTransWeight::spec_inv_weight(w, opts)
            * opts.transition_pen - w) <= opts.transition_pen,
{
    let p = opts.transition_pen as int;
    let c = w as int;
    let q = (2 * c + p) / (2 * p);
    assert(2 * p * q <= 2 * c + p < 2 * p * (q + 1)) by (nonlinear_arith)
        requires
            q == (2 * c + p) / (2 * p),
            p > 0,
            c >= 0,
    ;
    assert(2 * p * (q + 1) == 2 * (q * p) + 2 * p && 2 * p * q == 2 * (q * p)) by (nonlinear_arith);
    assert(0 <= q < 0xffff_ffff) by (nonlinear_arith)
        requires
            2 * p * q <= 2 * c + p,
            c < p * 0xffff_fff0,
            p > 0,
            2 * c + p < 2 * p * (q + 1),
            c >= 0,
    ;
}

/// A way is looked for at up to three times the time that the timetable gives, with the punishments for the
/// wrong line, but not less than three minutes: costs are tenths of a second, factors hundredths.
pub proof fn lemma_max_cost(hop_time: u128, opts: RoutingOpts)
    ensures
        ({
            let m = ExpoTransWeight::spec_max_cost(hop_time, opts);
            let t = if hop_time < 60_000_000_000 {
                60_000_000_000
            } else {
                hop_time as int
            };
            let punished = 3 * t * opts.line_unmatched_punish_fact
                * opts.line_name_to_unmatched_punish_fact * opts.line_name_from_unmatched_punish_fact;
            &&& m < u32::MAX ==> punished <= m * 100_000_000 * 1_000_000
            &&& m > 0 ==> (m - 1) * 100_000_000 * 1_000_000 < punished
        }),
{
    let t = if hop_time < 60_000_000_000 {
        60_000_000_000
    } else {
        hop_time as int
    };
    let a = opts.line_unmatched_punish_fact as int;
    let b = opts.line_name_to_unmatched_punish_fact as int;
    let c = opts.line_name_from_unmatched_punish_fact as int;
    assert(3 * t * a * b * c == t * a * b * c * 3) by (nonlinear_arith);
    assert(t * a * b * c * 3 >= 0) by (nonlinear_arith)
        requires
            t >= 0,
            a >= 0,
            b >= 0,
            c >= 0,
    ;
    let n = (t as nat) * (a as nat) * (b as nat) * (c as nat) * 3;
    assert(n == t * a * b * c * 3);
}

/// Each respect in which two lines are alike counts the same.
pub proof fn lemma_each_respect_counts(s: LineSimilarity)
    ensures
        similarity_score(LineSimilarity { name_similar: true, ..s }) == similarity_score(
            (LineSimilarity { name_similar: false, ..s }),
        ) + 1,
        similarity_score(LineSimilarity { from_similar: true, ..s }) == similarity_score(
            (LineSimilarity { from_similar: false, ..s }),
        ) + 1,
        similarity_score(LineSimilarity { to_similar: true, ..s }) == similarity_score(
            (LineSimilarity { to_similar: false, ..s }),
        ) + 1,
        !s.name_similar && !s.from_similar && !s.to_similar ==> similarity_score(s) == 0,
{
}

/// A line is like itself in every respect.
pub proof fn lemma_like_itself(a: RoutingAttrs, info: TransitInfo)
    requires
        a@ == info@,
    ensures
        a.similarity(&info).name_similar,
        a.similarity(&info).from_similar,
        a.similarity(&info).to_similar,
{
}

} // verus!
