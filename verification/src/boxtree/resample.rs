//! Resampling a region of colors into a single color of a MIP map.
use vstd::prelude::*;
use crate::boxtree::types::{Albedo, MIPResamplingMethods};

verus! {

/// Integer square root: the largest `r` with `r * r <= n`
pub open spec fn isqrt(n: nat) -> nat
    decreases n,
{
    if n == 0 {
        0
    } else {
        let r = isqrt((n - 1) as nat);
        if (r + 1) * (r + 1) <= n {
            r + 1
        } else {
            r
        }
    }
}

/// The integer closest to the square root (halves rounded up)
pub open spec fn round_sqrt(n: nat) -> nat {
    let r = isqrt(n);
    if n - r * r > r {
        r + 1
    } else {
        r
    }
}

/// The integer closest to `x / d` (halves rounded up)
pub open spec fn round_div(x: nat, d: nat) -> nat
    recommends
        d > 0,
{
    ((2 * x + d) / (2 * d)) as nat
}

pub proof fn lemma_isqrt(n: nat)
    ensures
        isqrt(n) * isqrt(n) <= n < (isqrt(n) + 1) * (isqrt(n) + 1),
    decreases n,
{
    if n > 0 {
        lemma_isqrt((n - 1) as nat);
        let r = isqrt((n - 1) as nat);
        if (r + 1) * (r + 1) <= n {
            assert(isqrt(n) == r + 1);
            assert(n < (r + 2) * (r + 2)) by (nonlinear_arith)
                requires
                    n - 1 < (r + 1) * (r + 1),
                    r >= 0,
            ;
            assert(isqrt(n) * isqrt(n) <= n);
            assert(n < (isqrt(n) + 1) * (isqrt(n) + 1));
        } else {
            assert(isqrt(n) == r);
            assert(r * r <= n);
            assert(n < (isqrt(n) + 1) * (isqrt(n) + 1));
        }
    } else {
        assert(isqrt(n) == 0);
        let s = isqrt(n);
        assert((s + 1) * (s + 1) == 1 && s * s == 0) by (nonlinear_arith)
            requires s == 0;
    }
}

pub proof fn lemma_isqrt_unique(n: nat, r: nat)
    requires
        r * r <= n < (r + 1) * (r + 1),
    ensures
        isqrt(n) == r,
{
    lemma_isqrt(n);
    let s = isqrt(n);
    if s < r {
        assert((s + 1) * (s + 1) <= r * r) by (nonlinear_arith)
            requires s < r, s >= 0;
    } else if s > r {
        assert((r + 1) * (r + 1) <= s * s) by (nonlinear_arith)
            requires s > r, r >= 0;
    }
}

/// Square root of a value of at most `255 * 255`, rounded down
pub fn isqrt_small(n: u32) -> (r: u32)
    requires
        n <= 65025,
    ensures
        r == isqrt(n as nat),
        r <= 255,
{
    let mut r: u32 = 0;
    let mut next_sq: u32 = 1;
    while r < 255 && next_sq <= n
        invariant
            r * r <= n,
            n <= 65025,
            r <= 255,
            next_sq == (r + 1) * (r + 1),
        decreases 255 - r,
    {
        assert((r + 2) * (r + 2) == (r + 1) * (r + 1) + 2 * r + 3) by (nonlinear_arith);
        r = r + 1;
        next_sq = next_sq + 2 * r + 1;
    }
    proof {
        if r == 255 {
            assert(n < 256 * 256);
        }
        lemma_isqrt_unique(n as nat, r as nat);
    }
    r
}

/// Square root of a value of at most `255 * 255`, rounded to the closest integer
pub fn round_sqrt_small(n: u32) -> (r: u32)
    requires
        n <= 65025,
    ensures
        r == round_sqrt(n as nat),
        r <= 255,
{
    let s = isqrt_small(n);
    proof {
        lemma_isqrt(n as nat);
    }
    if n - s * s > s {
        proof {
            assert(s < 255) by {
                if s == 255 {
                    assert(n - 255 * 255 <= 0);
                }
            }
        }
        s + 1
    } else {
        s
    }
}

/// One channel of a color: 0 red, 1 green, 2 blue, 3 alpha
pub open spec fn channel(c: Albedo, ch: int) -> u8 {
    if ch == 0 {
        c.r
    } else if ch == 1 {
        c.g
    } else if ch == 2 {
        c.b
    } else {
        c.a
    }
}

/// Number of samples holding a color
pub open spec fn count_some(samples: Seq<Option<Albedo>>) -> nat
    decreases samples.len(),
{
    if samples.len() == 0 {
        0
    } else {
        count_some(samples.drop_last()) + if samples.last() is Some { 1nat } else { 0nat }
    }
}

/// Sum of the squares of a channel over the samples holding a color
pub open spec fn sq_sum(samples: Seq<Option<Albedo>>, ch: int) -> nat
    decreases samples.len(),
{
    if samples.len() == 0 {
        0
    } else {
        sq_sum(samples.drop_last(), ch) + match samples.last() {
            Some(c) => (channel(c, ch) * channel(c, ch)) as nat,
            None => 0nat,
        }
    }
}

/// Gamma corrected average of one channel: square root of the mean of the squares
pub open spec fn box_channel(samples: Seq<Option<Albedo>>, ch: int) -> u8 {
    isqrt(sq_sum(samples, ch) / count_some(samples)) as u8
}

/// The gamma corrected average color of the samples holding a color, if there are any
pub open spec fn box_filter_spec(samples: Seq<Option<Albedo>>) -> Option<Albedo> {
    if count_some(samples) == 0 {
        None
    } else {
        Some(
            Albedo {
                r: box_channel(samples, 0),
                g: box_channel(samples, 1),
                b: box_channel(samples, 2),
                a: box_channel(samples, 3),
            },
        )
    }
}

/// Number of samples holding exactly the given color
pub open spec fn occurrences(samples: Seq<Option<Albedo>>, c: Albedo) -> nat
    decreases samples.len(),
{
    if samples.len() == 0 {
        0
    } else {
        occurrences(samples.drop_last(), c) + if samples.last() == Some(c) { 1nat } else { 0nat }
    }
}

/// A most frequent color of the samples; no color if no sample holds any
pub open spec fn is_point_filter_result(samples: Seq<Option<Albedo>>, r: Option<Albedo>) -> bool {
    match r {
        None => count_some(samples) == 0,
        Some(c) => occurrences(samples, c) > 0 && forall|d: Albedo| #[trigger]
            occurrences(samples, d) <= occurrences(samples, c),
    }
}

proof fn lemma_occurrences_le_count(samples: Seq<Option<Albedo>>, c: Albedo)
    ensures
        occurrences(samples, c) <= count_some(samples),
    decreases samples.len(),
{
    if samples.len() > 0 {
        lemma_occurrences_le_count(samples.drop_last(), c);
    }
}

proof fn lemma_sq_sum_bound(samples: Seq<Option<Albedo>>, ch: int)
    ensures
        sq_sum(samples, ch) <= 65025 * count_some(samples),
    decreases samples.len(),
{
    if samples.len() > 0 {
        lemma_sq_sum_bound(samples.drop_last(), ch);
        match samples.last() {
            Some(c) => {
                let v = channel(c, ch);
                assert(v * v <= 65025) by (nonlinear_arith)
                    requires v <= 255;
            },
            None => {},
        }
    }
}

/// Sum of the squared channels of the given colors, with their count
#[derive(Debug, Clone, Copy)]
pub struct ColorSum {
    pub r: u128,
    pub g: u128,
    pub b: u128,
    pub a: u128,
    pub count: u128,
}

/// A group of colors while posterizing: the sums of their squared channels and their count
pub type SpecColorSum = (nat, nat, nat, nat, nat);

impl ColorSum {
    pub open spec fn view(&self) -> SpecColorSum {
        (self.r as nat, self.g as nat, self.b as nat, self.a as nat, self.count as nat)
    }
}

/// The color representing a group: gamma corrected average of its colors, rounded
pub open spec fn poster_color(s: SpecColorSum) -> (nat, nat, nat, nat) {
    (
        round_sqrt(round_div(s.0, s.4)),
        round_sqrt(round_div(s.1, s.4)),
        round_sqrt(round_div(s.2, s.4)),
        round_sqrt(round_div(s.3, s.4)),
    )
}

/// Squared distance between a group's color and a color
pub open spec fn poster_distance_sq(p: (nat, nat, nat, nat), c: Albedo) -> int {
    (p.0 - c.r) * (p.0 - c.r) + (p.1 - c.g) * (p.1 - c.g) + (p.2 - c.b) * (p.2 - c.b) + (p.3 - c.a) * (
    p.3 - c.a)
}

/// The color is closer to the group's color than the threshold (in thousandths of the full
/// color range of 255)
pub open spec fn poster_close(s: SpecColorSum, c: Albedo, thr: u32) -> bool {
    poster_distance_sq(poster_color(s), c) * 1_000_000 < (thr * 255) * (thr * 255)
}

/// Index of the first group, from `j` on, close to the color; the number of groups if none
pub open spec fn first_close(groups: Seq<SpecColorSum>, c: Albedo, thr: u32, j: int) -> int
    decreases groups.len() - j,
{
    if j >= groups.len() || j < 0 {
        groups.len() as int
    } else if poster_close(groups[j], c, thr) {
        j
    } else {
        first_close(groups, c, thr, j + 1)
    }
}

/// The squared channels of a color as a group of one
pub open spec fn single_group(c: Albedo) -> SpecColorSum {
    (
        (c.r * c.r) as nat,
        (c.g * c.g) as nat,
        (c.b * c.b) as nat,
        (c.a * c.a) as nat,
        1nat,
    )
}

/// A group with one more color added
pub open spec fn add_to_group(s: SpecColorSum, c: Albedo) -> SpecColorSum {
    (
        s.0 + (c.r * c.r) as nat,
        s.1 + (c.g * c.g) as nat,
        s.2 + (c.b * c.b) as nat,
        s.3 + (c.a * c.a) as nat,
        s.4 + 1,
    )
}

/// The groups built from the samples: each color joins the first group close to it,
/// or starts a new group
pub open spec fn posterize_groups(samples: Seq<Option<Albedo>>, thr: u32) -> Seq<SpecColorSum>
    decreases samples.len(),
{
    if samples.len() == 0 {
        Seq::empty()
    } else {
        let prev = posterize_groups(samples.drop_last(), thr);
        match samples.last() {
            None => prev,
            Some(c) => {
                let i = first_close(prev, c, thr, 0);
                if i < prev.len() {
                    prev.update(i, add_to_group(prev[i], c))
                } else {
                    prev.push(single_group(c))
                }
            },
        }
    }
}

/// Index of the first group with the largest count, from `j` on
pub open spec fn first_max_group(groups: Seq<SpecColorSum>, j: int) -> int
    decreases groups.len() - j,
{
    if j < 0 || j + 1 >= groups.len() {
        j
    } else {
        let rest = first_max_group(groups, j + 1);
        if groups[j].4 >= groups[rest].4 {
            j
        } else {
            rest
        }
    }
}

/// The color of the largest group of the samples, if there is any color
pub open spec fn posterize_spec(samples: Seq<Option<Albedo>>, thr: u32) -> Option<Albedo> {
    let groups = posterize_groups(samples, thr);
    if groups.len() == 0 {
        None
    } else {
        let p = poster_color(groups[first_max_group(groups, 0)]);
        Some(Albedo { r: p.0 as u8, g: p.1 as u8, b: p.2 as u8, a: p.3 as u8 })
    }
}

/// The results a method may give for the samples
pub open spec fn is_resample_result(method: MIPResamplingMethods, samples: Seq<Option<Albedo>>, r: Option<Albedo>) -> bool {
    match method {
        MIPResamplingMethods::BoxFilter => r == box_filter_spec(samples),
        MIPResamplingMethods::PointFilter | MIPResamplingMethods::PointFilterBD => is_point_filter_result(samples, r),
        MIPResamplingMethods::Posterize(thr) | MIPResamplingMethods::PosterizeBD(thr) => r == posterize_spec(samples, thr),
    }
}

/// The largest number of colors one resampling takes in
pub open spec fn max_stream() -> nat {
    0x1_0000_0000_0000_0000_0000_0000nat
}

proof fn lemma_occurrences_push(prefix: Seq<Option<Albedo>>, x: Option<Albedo>, d: Albedo)
    ensures
        occurrences(prefix.push(x), d) == occurrences(prefix, d) + if x == Some(d) { 1nat } else { 0nat },
        count_some(prefix.push(x)) == count_some(prefix) + if x is Some { 1nat } else { 0nat },
{
    assert(prefix.push(x).drop_last() == prefix);
}

/// The integer closest to `x / d`, for an average of squared channels
fn round_div_exec(x: u128, d: u128) -> (r: u32)
    requires
        d > 0,
        d < max_stream(),
        x <= 65025 * d,
    ensures
        r == round_div(x as nat, d as nat),
        r <= 65025,
{
    let q = (2 * x + d) / (2 * d);
    assert((2 * x + d) / (2 * d) <= 65025) by {
        assert(2 * x + d < 65026 * (2 * d)) by (nonlinear_arith)
            requires x <= 65025 * d, d > 0;
        vstd::arithmetic::div_mod::lemma_div_by_multiple_is_strongly_ordered(
            (2 * x + d) as int, 65026 * (2 * d), 65026, (2 * d) as int);
        vstd::arithmetic::div_mod::lemma_div_by_multiple(65026, (2 * d) as int);
    }
    q as u32
}

/// True if the sums of a group are consistent with its count of colors
pub open spec fn group_bounded(g: SpecColorSum) -> bool {
    &&& g.4 >= 1
    &&& g.4 < max_stream()
    &&& g.0 <= 65025 * g.4
    &&& g.1 <= 65025 * g.4
    &&& g.2 <= 65025 * g.4
    &&& g.3 <= 65025 * g.4
}

/// The color representing the group
fn poster_color_exec(g: &ColorSum) -> (p: (u32, u32, u32, u32))
    requires
        group_bounded(g@),
    ensures
        p.0 == poster_color(g@).0,
        p.1 == poster_color(g@).1,
        p.2 == poster_color(g@).2,
        p.3 == poster_color(g@).3,
        p.0 <= 255 && p.1 <= 255 && p.2 <= 255 && p.3 <= 255,
{
    (
        round_sqrt_small(round_div_exec(g.r, g.count)),
        round_sqrt_small(round_div_exec(g.g, g.count)),
        round_sqrt_small(round_div_exec(g.b, g.count)),
        round_sqrt_small(round_div_exec(g.a, g.count)),
    )
}

fn abs_diff(a: u32, b: u32) -> (r: u64)
    ensures
        r * r == (a - b) * (a - b),
        r <= if a >= b { a - b } else { b - a },
{
    let r: u64 = if a >= b { (a - b) as u64 } else { (b - a) as u64 };
    assert(r * r == (a - b) * (a - b)) by (nonlinear_arith)
        requires r == a - b || r == b - a;
    r
}

/// True if the color is close enough to the group to join it
fn poster_close_exec(g: &ColorSum, c: &Albedo, thr: u32) -> (r: bool)
    requires
        group_bounded(g@),
    ensures
        r == poster_close(g@, *c, thr),
{
    let p = poster_color_exec(g);
    let dr = abs_diff(p.0, c.r as u32);
    let dg = abs_diff(p.1, c.g as u32);
    let db = abs_diff(p.2, c.b as u32);
    let da = abs_diff(p.3, c.a as u32);
    assert(dr * dr <= 65025 && dg * dg <= 65025 && db * db <= 65025 && da * da <= 65025)
        by (nonlinear_arith)
        requires dr <= 255, dg <= 255, db <= 255, da <= 255;
    let dist: u128 = (dr * dr + dg * dg + db * db + da * da) as u128;
    let limit: u128 = (thr as u128) * 255;
    assert(limit * limit <= 0xffff_ffff_ffff_ffff_ffff_ffff_ffff_ffff) by (nonlinear_arith)
        requires limit <= 0xffff_ffff * 255;
    dist * 1_000_000 < limit * limit
}

proof fn lemma_first_close_skip(groups: Seq<SpecColorSum>, c: Albedo, thr: u32, k: int)
    requires
        0 <= k <= groups.len(),
        forall|m: int| 0 <= m < k ==> !poster_close(#[trigger] groups[m], c, thr),
    ensures
        first_close(groups, c, thr, 0) == first_close(groups, c, thr, k),
    decreases k,
{
    if k > 0 {
        lemma_first_close_skip(groups, c, thr, k - 1);
    }
}

proof fn lemma_first_max_group(groups: Seq<SpecColorSum>, j: int)
    requires
        0 <= j < groups.len(),
    ensures
        j <= first_max_group(groups, j) < groups.len(),
        forall|m: int| j <= m < groups.len() ==> #[trigger] groups[m].4 <= groups[first_max_group(groups, j)].4,
        forall|m: int| j <= m < first_max_group(groups, j) ==> #[trigger] groups[m].4 < groups[first_max_group(groups, j)].4,
    decreases groups.len() - j,
{
    if j + 1 < groups.len() {
        lemma_first_max_group(groups, j + 1);
    }
}

/// Resampling a stream of colors with a method: what the colors taken in so far add up to
pub struct Resampler {
    method: MIPResamplingMethods,
    sr: u128,
    sg: u128,
    sb: u128,
    sa: u128,
    count: u128,
    colors: Vec<Albedo>,
    counts: Vec<u128>,
    groups: Vec<ColorSum>,
    seen: Ghost<Seq<Option<Albedo>>>,
}

impl Resampler {
    /// The colors taken in so far, in order
    pub closed spec fn seen(&self) -> Seq<Option<Albedo>> {
        self.seen@
    }

    /// The method the colors are resampled with
    pub closed spec fn method(&self) -> MIPResamplingMethods {
        self.method
    }

    closed spec fn box_inv(&self) -> bool {
        let s = self.seen@;
        &&& self.count == count_some(s)
        &&& self.sr == sq_sum(s, 0)
        &&& self.sg == sq_sum(s, 1)
        &&& self.sb == sq_sum(s, 2)
        &&& self.sa == sq_sum(s, 3)
        &&& self.count <= s.len()
        &&& self.sr <= 65025 * s.len()
        &&& self.sg <= 65025 * s.len()
        &&& self.sb <= 65025 * s.len()
        &&& self.sa <= 65025 * s.len()
    }

    closed spec fn point_inv(&self) -> bool {
        let s = self.seen@;
        &&& self.colors.len() == self.counts.len()
        &&& forall|j: int| 0 <= j < self.colors.len() ==> #[trigger] self.counts[j] == occurrences(s, self.colors[j])
        &&& forall|j: int| 0 <= j < self.colors.len() ==> #[trigger] self.counts[j] <= s.len()
        &&& forall|j: int| 0 <= j < self.colors.len() ==> #[trigger] self.counts[j] >= 1
        &&& forall|d: Albedo| #[trigger] occurrences(s, d) > 0 ==> exists|j: int| 0 <= j < self.colors.len() && self.colors[j] == d
        &&& count_some(s) > 0 ==> self.colors.len() > 0
        &&& forall|a: int, b: int| 0 <= a < b < self.colors.len() ==> self.colors[a] != self.colors[b]
    }

    closed spec fn poster_inv(&self, thr: u32) -> bool {
        let s = self.seen@;
        &&& self.groups@.map_values(|g: ColorSum| g@) == posterize_groups(s, thr)
        &&& forall|j: int| 0 <= j < self.groups.len() ==> group_bounded(#[trigger] self.groups[j]@)
        &&& forall|j: int| 0 <= j < self.groups.len() ==> #[trigger] self.groups[j].count <= s.len()
    }

    /// The state is what the colors taken in give, for the method
    pub closed spec fn inv(&self) -> bool {
        &&& self.seen@.len() < max_stream()
        &&& match self.method {
            MIPResamplingMethods::BoxFilter => self.box_inv(),
            MIPResamplingMethods::PointFilter | MIPResamplingMethods::PointFilterBD => self.point_inv(),
            MIPResamplingMethods::Posterize(thr) | MIPResamplingMethods::PosterizeBD(thr) => self.poster_inv(thr),
        }
    }

    /// A resampler that has taken in no color yet
    pub fn new(method: MIPResamplingMethods) -> (r: Self)
        ensures
            r.inv(),
            r.method() == method,
            r.seen() == Seq::<Option<Albedo>>::empty(),
    {
        let r = Resampler {
            method,
            sr: 0,
            sg: 0,
            sb: 0,
            sa: 0,
            count: 0,
            colors: Vec::new(),
            counts: Vec::new(),
            groups: Vec::new(),
            seen: Ghost(Seq::empty()),
        };
        proof {
            assert(r.groups@.map_values(|g: ColorSum| g@) =~= Seq::<SpecColorSum>::empty());
        }
        r
    }

    /// Takes in one more color, or an empty sample
    pub fn push(&mut self, sample: Option<Albedo>)
        requires
            old(self).inv(),
            old(self).seen().len() + 1 < max_stream(),
        ensures
            final(self).inv(),
            final(self).method() == old(self).method(),
            final(self).seen() == old(self).seen().push(sample),
    {
        let ghost prefix = self.seen@;
        let ghost next = prefix.push(sample);
        proof {
            assert(next.drop_last() == prefix);
            assert forall|d: Albedo| true implies #[trigger] occurrences(next, d) == occurrences(prefix, d) + if sample == Some(d) { 1nat } else { 0nat } by {
                lemma_occurrences_push(prefix, sample, d);
            }
            lemma_occurrences_push(prefix, sample, Albedo { r: 0, g: 0, b: 0, a: 0 });
        }
        match self.method {
            MIPResamplingMethods::BoxFilter => {
                match sample {
                    Some(c) => {
                        let r = c.r as u128;
                        let g = c.g as u128;
                        let b = c.b as u128;
                        let a = c.a as u128;
                        assert(r * r <= 65025 && g * g <= 65025 && b * b <= 65025 && a * a <= 65025)
                            by (nonlinear_arith)
                            requires r <= 255, g <= 255, b <= 255, a <= 255;
                        self.sr = self.sr + r * r;
                        self.sg = self.sg + g * g;
                        self.sb = self.sb + b * b;
                        self.sa = self.sa + a * a;
                        self.count = self.count + 1;
                    },
                    None => {},
                }
                self.seen = Ghost(next);
            },
            MIPResamplingMethods::PointFilter | MIPResamplingMethods::PointFilterBD => {
                match sample {
                    Some(c) => {
                        let mut j: usize = 0;
                        while j < self.colors.len() && self.colors[j] != c
                            invariant
                                j <= self.colors.len(),
                                forall|k: int| 0 <= k < j ==> self.colors[k] != c,
                            decreases self.colors.len() - j,
                        {
                            j += 1;
                        }
                        if j < self.colors.len() {
                            let v = self.counts[j] + 1;
                            self.counts.set(j, v);
                            proof {
                                assert forall|k: int| 0 <= k < self.colors.len() && k != j implies self.colors[k] != c by {
                                    if k < j {
                                    } else {
                                        assert(self.colors[j as int] == c);
                                    }
                                }
                            }
                        } else {
                            let ghost old_colors = self.colors@;
                            self.colors.push(c);
                            self.counts.push(1);
                            proof {
                                assert forall|d: Albedo| #[trigger] occurrences(next, d) > 0 implies exists|jj: int| 0 <= jj < self.colors.len() && self.colors[jj] == d by {
                                    if d == c {
                                        assert(self.colors[self.colors.len() - 1] == d);
                                    } else {
                                        let jj = choose|jj: int| 0 <= jj < self.colors.len() - 1 && old_colors[jj] == d;
                                        assert(self.colors[jj] == d);
                                    }
                                }
                            }
                        }
                    },
                    None => {},
                }
                self.seen = Ghost(next);
            },
            MIPResamplingMethods::Posterize(thr) | MIPResamplingMethods::PosterizeBD(thr) => {
                let ghost old_groups = self.groups@.map_values(|g: ColorSum| g@);
                match sample {
                    Some(c) => {
                        let mut j: usize = 0;
                        while j < self.groups.len() && !poster_close_exec(&self.groups[j], &c, thr)
                            invariant
                                j <= self.groups.len(),
                                forall|m: int| 0 <= m < self.groups.len() ==> group_bounded(#[trigger] self.groups[m]@),
                                forall|m: int| 0 <= m < j ==> !poster_close(#[trigger] self.groups[m]@, c, thr),
                            decreases self.groups.len() - j,
                        {
                            j += 1;
                        }
                        proof {
                            assert forall|m: int| 0 <= m < j implies !poster_close(#[trigger] old_groups[m], c, thr) by {
                                assert(old_groups[m] == self.groups[m]@);
                            }
                            lemma_first_close_skip(old_groups, c, thr, j as int);
                        }
                        let cr = c.r as u128;
                        let cg = c.g as u128;
                        let cb = c.b as u128;
                        let ca = c.a as u128;
                        assert(cr * cr <= 65025 && cg * cg <= 65025 && cb * cb <= 65025 && ca * ca <= 65025)
                            by (nonlinear_arith)
                            requires cr <= 255, cg <= 255, cb <= 255, ca <= 255;
                        if j < self.groups.len() {
                            assert(poster_close(old_groups[j as int], c, thr));
                            assert(first_close(old_groups, c, thr, j as int) == j);
                            let g = self.groups[j];
                            let ng = ColorSum {
                                r: g.r + cr * cr,
                                g: g.g + cg * cg,
                                b: g.b + cb * cb,
                                a: g.a + ca * ca,
                                count: g.count + 1,
                            };
                            self.groups.set(j, ng);
                            assert(self.groups@.map_values(|g: ColorSum| g@) == old_groups.update(j as int, add_to_group(old_groups[j as int], c)));
                        } else {
                            self.groups.push(ColorSum { r: cr * cr, g: cg * cg, b: cb * cb, a: ca * ca, count: 1 });
                            assert(self.groups@.map_values(|g: ColorSum| g@) == old_groups.push(single_group(c)));
                        }
                    },
                    None => {},
                }
                self.seen = Ghost(next);
            },
        }
    }

    /// The color the colors taken in resample to
    pub fn finish(&self) -> (r: Option<Albedo>)
        requires
            self.inv(),
        ensures
            is_resample_result(self.method(), self.seen(), r),
    {
        let ghost s = self.seen@;
        match self.method {
            MIPResamplingMethods::BoxFilter => {
                if self.count == 0 {
                    None
                } else {
                    let count = self.count;
                    proof {
                        assert forall|ch: int| 0 <= ch < 4 implies #[trigger] (sq_sum(s, ch) as int) / (count as int) <= 65025 by {
                            lemma_sq_sum_bound(s, ch);
                            vstd::arithmetic::div_mod::lemma_div_is_ordered(sq_sum(s, ch) as int, 65025 * count, count as int);
                            vstd::arithmetic::div_mod::lemma_div_by_multiple(65025, count as int);
                        }
                        assert((sq_sum(s, 0) as int) / (count as int) <= 65025);
                        assert((sq_sum(s, 1) as int) / (count as int) <= 65025);
                        assert((sq_sum(s, 2) as int) / (count as int) <= 65025);
                        assert((sq_sum(s, 3) as int) / (count as int) <= 65025);
                    }
                    let r = isqrt_small((self.sr / count) as u32);
                    let g = isqrt_small((self.sg / count) as u32);
                    let b = isqrt_small((self.sb / count) as u32);
                    let a = isqrt_small((self.sa / count) as u32);
                    Some(Albedo { r: r as u8, g: g as u8, b: b as u8, a: a as u8 })
                }
            },
            MIPResamplingMethods::PointFilter | MIPResamplingMethods::PointFilterBD => {
                if self.colors.len() == 0 {
                    None
                } else {
                    let mut best: usize = 0;
                    let mut k: usize = 1;
                    while k < self.colors.len()
                        invariant
                            self.point_inv(),
                            1 <= k <= self.colors.len(),
                            best < k,
                            forall|m: int| 0 <= m < k ==> self.counts[m] <= self.counts[best as int],
                        decreases self.colors.len() - k,
                    {
                        if self.counts[k] > self.counts[best] {
                            best = k;
                        }
                        k += 1;
                    }
                    proof {
                        assert forall|d: Albedo| #[trigger] occurrences(s, d) <= occurrences(s, self.colors[best as int]) by {
                            if occurrences(s, d) > 0 {
                                let j = choose|j: int| 0 <= j < self.colors.len() && self.colors[j] == d;
                                assert(self.counts[j] <= self.counts[best as int]);
                            }
                        }
                    }
                    Some(self.colors[best])
                }
            },
            MIPResamplingMethods::Posterize(thr) | MIPResamplingMethods::PosterizeBD(thr) => {
                let ghost spec_groups = self.groups@.map_values(|g: ColorSum| g@);
                if self.groups.len() == 0 {
                    None
                } else {
                    let mut best: usize = 0;
                    let mut k: usize = 1;
                    while k < self.groups.len()
                        invariant
                            1 <= k <= self.groups.len(),
                            best < k,
                            forall|m: int| 0 <= m < k ==> #[trigger] self.groups[m].count <= self.groups[best as int].count,
                            forall|m: int| 0 <= m < best ==> #[trigger] self.groups[m].count < self.groups[best as int].count,
                        decreases self.groups.len() - k,
                    {
                        if self.groups[k].count > self.groups[best].count {
                            best = k;
                        }
                        k += 1;
                    }
                    proof {
                        lemma_first_max_group(spec_groups, 0);
                        let f = first_max_group(spec_groups, 0);
                        assert(spec_groups[best as int] == self.groups[best as int]@);
                        assert(spec_groups[f] == self.groups[f]@);
                        if f < best {
                            assert(self.groups[f].count < self.groups[best as int].count);
                            assert(spec_groups[best as int].4 <= spec_groups[f].4);
                        } else if f > best {
                            assert(spec_groups[best as int].4 < spec_groups[f].4);
                            assert(self.groups[f].count <= self.groups[best as int].count);
                        }
                    }
                    let p = poster_color_exec(&self.groups[best]);
                    Some(Albedo { r: p.0 as u8, g: p.1 as u8, b: p.2 as u8, a: p.3 as u8 })
                }
            },
        }
    }
}

/// Resamples the given colors into one, with the method given
pub fn resample(method: MIPResamplingMethods, samples: &Vec<Option<Albedo>>) -> (r: Option<Albedo>)
    ensures
        is_resample_result(method, samples@, r),
{
    let mut acc = Resampler::new(method);
    let mut i: usize = 0;
    while i < samples.len()
        invariant
            i <= samples.len(),
            acc.inv(),
            acc.method() == method,
            acc.seen() == samples@.subrange(0, i as int),
        decreases samples.len() - i,
    {
        assert(samples@.subrange(0, i + 1) == samples@.subrange(0, i as int).push(samples@[i as int]));
        acc.push(samples[i]);
        i += 1;
    }
    assert(samples@.subrange(0, samples.len() as int) == samples@);
    acc.finish()
}

/// Gamma corrected average of the given colors
pub fn box_filter(samples: &Vec<Option<Albedo>>) -> (r: Option<Albedo>)
    ensures
        r == box_filter_spec(samples@),
{
    resample(MIPResamplingMethods::BoxFilter, samples)
}

/// A most frequent color of the given colors
pub fn point_filter(samples: &Vec<Option<Albedo>>) -> (r: Option<Albedo>)
    ensures
        is_point_filter_result(samples@, r),
{
    resample(MIPResamplingMethods::PointFilter, samples)
}

/// The color of the largest group of similar colors
pub fn posterize(samples: &Vec<Option<Albedo>>, thr: u32) -> (r: Option<Albedo>)
    ensures
        r == posterize_spec(samples@, thr),
{
    resample(MIPResamplingMethods::Posterize(thr), samples)
}

/// Every sample holds the color `c` or nothing
pub open spec fn uniform_samples(samples: Seq<Option<Albedo>>, c: Albedo) -> bool {
    forall|i: int| 0 <= i < samples.len() ==> #[trigger] samples[i] is None || samples[i] == Some(c)
}

/// A group made of `k` copies of the color `c`
pub open spec fn copies_of(g: SpecColorSum, c: Albedo) -> bool {
    &&& g.4 >= 1
    &&& g.0 == g.4 * (c.r * c.r)
    &&& g.1 == g.4 * (c.g * c.g)
    &&& g.2 == g.4 * (c.b * c.b)
    &&& g.3 == g.4 * (c.a * c.a)
}

proof fn lemma_uniform_counts(samples: Seq<Option<Albedo>>, c: Albedo)
    requires
        uniform_samples(samples, c),
    ensures
        count_some(samples) == occurrences(samples, c),
        forall|d: Albedo| d != c ==> #[trigger] occurrences(samples, d) == 0,
        forall|ch: int| #[trigger] sq_sum(samples, ch) == count_some(samples) * (channel(c, ch) * channel(c, ch)),
    decreases samples.len(),
{
    if samples.len() > 0 {
        let prefix = samples.drop_last();
        assert forall|i: int| 0 <= i < prefix.len() implies #[trigger] prefix[i] is None || prefix[i] == Some(c) by {
            assert(prefix[i] == samples[i]);
        }
        lemma_uniform_counts(prefix, c);
        assert(samples[samples.len() - 1] is None || samples[samples.len() - 1] == Some(c));
        assert(samples.last() == samples[samples.len() - 1]);
        assert forall|d: Albedo| d != c implies #[trigger] occurrences(samples, d) == 0 by {
            assert(occurrences(prefix, d) == 0);
            assert(occurrences(samples, d) == occurrences(prefix, d) + if samples.last() == Some(d) { 1nat } else { 0nat });
        }
        assert(occurrences(samples, c) == occurrences(prefix, c) + if samples.last() == Some(c) { 1nat } else { 0nat });
        assert(count_some(samples) == count_some(prefix) + if samples.last() is Some { 1nat } else { 0nat });
        assert forall|ch: int| #[trigger] sq_sum(samples, ch) == count_some(samples) * (channel(c, ch) * channel(c, ch)) by {
            let v = channel(c, ch) * channel(c, ch);
            let n = count_some(prefix);
            assert(sq_sum(prefix, ch) == n * v);
            assert(sq_sum(samples, ch) == sq_sum(prefix, ch) + match samples.last() {
                Some(x) => (channel(x, ch) * channel(x, ch)) as nat,
                None => 0nat,
            });
            if samples.last() is Some {
                assert(samples.last() == Some(c));
                assert((n + 1) * v == n * v + v) by (nonlinear_arith);
            }
        }
    } else {
        assert forall|ch: int| #[trigger] sq_sum(samples, ch) == count_some(samples) * (channel(c, ch) * channel(c, ch)) by {
            assert(sq_sum(samples, ch) == 0);
            assert(count_some(samples) == 0);
        }
    }
}

proof fn lemma_uniform_groups(samples: Seq<Option<Albedo>>, c: Albedo, thr: u32)
    requires
        uniform_samples(samples, c),
    ensures
        forall|j: int| 0 <= j < posterize_groups(samples, thr).len() ==> copies_of(#[trigger] posterize_groups(samples, thr)[j], c),
        count_some(samples) > 0 ==> posterize_groups(samples, thr).len() > 0,
    decreases samples.len(),
{
    if samples.len() > 0 {
        let prefix = samples.drop_last();
        assert forall|i: int| 0 <= i < prefix.len() implies #[trigger] prefix[i] is None || prefix[i] == Some(c) by {
            assert(prefix[i] == samples[i]);
        }
        lemma_uniform_groups(prefix, c, thr);
        let prev = posterize_groups(prefix, thr);
        assert(samples[samples.len() - 1] is None || samples[samples.len() - 1] == Some(c));
        if samples.last() is Some {
            let i = first_close(prev, c, thr, 0);
            if i < prev.len() {
                lemma_first_close_range(prev, c, thr, 0);
                let g = prev[i];
                assert(copies_of(g, c));
                let k = g.4;
                assert((k + 1) * (c.r * c.r) == k * (c.r * c.r) + c.r * c.r) by (nonlinear_arith);
                assert((k + 1) * (c.g * c.g) == k * (c.g * c.g) + c.g * c.g) by (nonlinear_arith);
                assert((k + 1) * (c.b * c.b) == k * (c.b * c.b) + c.b * c.b) by (nonlinear_arith);
                assert((k + 1) * (c.a * c.a) == k * (c.a * c.a) + c.a * c.a) by (nonlinear_arith);
                assert(copies_of(add_to_group(g, c), c));
            } else {
                assert(copies_of(single_group(c), c));
            }
        }
    }
}

proof fn lemma_first_close_range(groups: Seq<SpecColorSum>, c: Albedo, thr: u32, j: int)
    requires
        0 <= j,
    ensures
        first_close(groups, c, thr, j) >= j || first_close(groups, c, thr, j) == groups.len(),
        first_close(groups, c, thr, j) <= groups.len(),
    decreases groups.len() - j,
{
    if j < groups.len() && !poster_close(groups[j], c, thr) {
        lemma_first_close_range(groups, c, thr, j + 1);
    }
}

/// The channel of a group of `k` copies of a value is that value
proof fn lemma_copy_channel(k: nat, v: nat, x: nat)
    requires
        k >= 1,
        x == k * (v * v),
    ensures
        round_sqrt(round_div(x, k)) == v,
{
    assert(2 * (k * (v * v)) + k == (v * v) * (2 * k) + k) by (nonlinear_arith);
    vstd::arithmetic::div_mod::lemma_fundamental_div_mod_converse((2 * x + k) as int, (2 * k) as int, (v * v) as int, k as int);
    assert(round_div(x, k) == v * v);
    assert(v * v <= v * v < (v + 1) * (v + 1)) by (nonlinear_arith);
    lemma_isqrt_unique(v * v, v);
}

/// A group of copies of a color stands for exactly that color
proof fn lemma_copies_color(g: SpecColorSum, c: Albedo)
    requires
        copies_of(g, c),
    ensures
        poster_color(g) == (c.r as nat, c.g as nat, c.b as nat, c.a as nat),
{
    lemma_copy_channel(g.4, c.r as nat, g.0);
    lemma_copy_channel(g.4, c.g as nat, g.1);
    lemma_copy_channel(g.4, c.b as nat, g.2);
    lemma_copy_channel(g.4, c.a as nat, g.3);
}

/// Resampling a region whose samples all hold the same color, or nothing, gives that color
/// with every method, wherever at least one sample holds it
pub proof fn lemma_uniform_resample(method: MIPResamplingMethods, samples: Seq<Option<Albedo>>, c: Albedo)
    requires
        uniform_samples(samples, c),
        exists|i: int| 0 <= i < samples.len() && samples[i] == Some(c),
    ensures
        forall|r: Option<Albedo>| #[trigger] is_resample_result(method, samples, r) <==> r == Some(c),
{
    lemma_uniform_counts(samples, c);
    let i0 = choose|i: int| 0 <= i < samples.len() && samples[i] == Some(c);
    assert(count_some(samples) > 0) by {
        lemma_occurrence_of_present(samples, c, i0);
    }
    match method {
        MIPResamplingMethods::BoxFilter => {
            let n = count_some(samples);
            assert forall|ch: int| 0 <= ch < 4 implies #[trigger] box_channel(samples, ch) == channel(c, ch) by {
                let v = channel(c, ch) as nat;
                assert(sq_sum(samples, ch) == n * (v * v));
                vstd::arithmetic::div_mod::lemma_div_multiples_vanish((v * v) as int, n as int);
                assert((n * (v * v)) / n == v * v) by (nonlinear_arith)
                    requires n > 0, (n * (v * v)) as int / n as int == v * v;
                assert(v * v <= v * v < (v + 1) * (v + 1)) by (nonlinear_arith);
                lemma_isqrt_unique(v * v, v);
            }
            assert(box_channel(samples, 0) == c.r);
            assert(box_channel(samples, 1) == c.g);
            assert(box_channel(samples, 2) == c.b);
            assert(box_channel(samples, 3) == c.a);
            assert(box_filter_spec(samples) == Some(c));
        },
        MIPResamplingMethods::PointFilter | MIPResamplingMethods::PointFilterBD => {
            assert forall|r: Option<Albedo>| #[trigger] is_resample_result(method, samples, r) <==> r == Some(c) by {
                if r == Some(c) {
                    assert forall|d: Albedo| #[trigger] occurrences(samples, d) <= occurrences(samples, c) by {
                        if d != c {
                            assert(occurrences(samples, d) == 0);
                        }
                    }
                }
                if let Some(d) = r {
                    if d != c {
                        assert(occurrences(samples, d) == 0);
                    }
                }
            }
        },
        MIPResamplingMethods::Posterize(thr) | MIPResamplingMethods::PosterizeBD(thr) => {
            lemma_uniform_groups(samples, c, thr);
            let groups = posterize_groups(samples, thr);
            lemma_first_max_group(groups, 0);
            let g = groups[first_max_group(groups, 0)];
            lemma_copies_color(g, c);
            assert(posterize_spec(samples, thr) == Some(c));
        },
    }
}

proof fn lemma_occurrence_of_present(samples: Seq<Option<Albedo>>, c: Albedo, i: int)
    requires
        0 <= i < samples.len(),
        samples[i] == Some(c),
    ensures
        occurrences(samples, c) > 0,
    decreases samples.len(),
{
    if i < samples.len() - 1 {
        let prefix = samples.drop_last();
        assert(prefix[i] == samples[i]);
        lemma_occurrence_of_present(prefix, c, i);
    }
}

} // verus!
