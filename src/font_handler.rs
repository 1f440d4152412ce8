//! Tile layout options and the policies that remap glyph coverage.
use vstd::prelude::*;

use crate::chars::RasterizedChar;
use crate::coverage::{
    lemma_seq_max_is_max, lemma_seq_min_is_min, seq_max, seq_min, valid_squares, COVERAGE_ONE,
};

verus! {

/// Horizontal placement of a glyph's ink box inside the tile; vertically
/// glyphs always sit on the bottom edge.
#[derive(Debug, Clone, Copy, PartialEq, Eq, Structural)]
pub enum CharAlignment {
    Left,
    Center,
    Right,
}

impl Default for CharAlignment {
    fn default() -> (r: Self)
        ensures
            r == CharAlignment::Center,
    {
        CharAlignment::Center
    }
}

/// Polarity of rendered glyphs: with `Black` the coverage is used as it is,
/// with `White` its reciprocal is used, saturating at 255.
#[derive(Debug, Clone, Copy, PartialEq, Eq, Structural)]
pub enum CharacterBackground {
    Black,
    White,
}

impl Default for CharacterBackground {
    fn default() -> (r: Self)
        ensures
            r == CharacterBackground::Black,
    {
        CharacterBackground::Black
    }
}

/// A glyph together with its squared distance to a target descriptor.
#[derive(Debug)]
pub struct CharDistributionMatch<'a> {
    pub distance: u64,
    pub rasterized_char: &'a RasterizedChar,
}

/// How raw glyph descriptors are remapped before matching.
#[derive(Debug, Clone, Copy, PartialEq, Eq, Structural)]
pub enum CharDistributionType {
    /// Adjusted equals raw.
    Exact,
    /// Every value is divided by the largest glyph maximum.
    ExactAdjustedBlacks,
    /// The smallest glyph minimum is subtracted, then the result is divided by
    /// the largest glyph maximum.
    ExactAdjustedWhites,
}

impl Default for CharDistributionType {
    fn default() -> (r: Self)
        ensures
            r == CharDistributionType::ExactAdjustedBlacks,
    {
        CharDistributionType::ExactAdjustedBlacks
    }
}

/// The largest of the glyph maxima.
pub open spec fn set_max(raws: Seq<Seq<u32>>) -> int
    decreases raws.len(),
{
    if raws.len() == 0 {
        0
    } else if raws.len() == 1 {
        seq_max(raws[0])
    } else {
        let m = set_max(raws.drop_last());
        let l = seq_max(raws.last());
        if l > m {
            l
        } else {
            m
        }
    }
}

/// The smallest of the glyph minima.
pub open spec fn set_min(raws: Seq<Seq<u32>>) -> int
    decreases raws.len(),
{
    if raws.len() == 0 {
        0
    } else if raws.len() == 1 {
        seq_min(raws[0])
    } else {
        let m = set_min(raws.drop_last());
        let l = seq_min(raws.last());
        if l < m {
            l
        } else {
            m
        }
    }
}

/// The raw descriptors of a glyph list.
pub open spec fn raw_descriptors(chars: Seq<RasterizedChar>) -> Seq<Seq<u32>> {
    Seq::new(chars.len(), |i: int| chars[i].coverage@)
}

/// The adjusted descriptors of a glyph list.
pub open spec fn adjusted_descriptors(chars: Seq<RasterizedChar>) -> Seq<Seq<u32>> {
    Seq::new(chars.len(), |i: int| chars[i].adjusted_coverage@)
}

impl CharDistributionType {
    /// The adjusted form of the raw value `v`, given the smallest glyph minimum
    /// `lo` and the largest glyph maximum `hi`.  With `hi == 0` every glyph is
    /// blank and the value stays as it is.
    pub open spec fn adjusted_value(self, v: int, lo: int, hi: int) -> int {
        if hi == 0 {
            v
        } else {
            match self {
                CharDistributionType::Exact => v,
                CharDistributionType::ExactAdjustedBlacks => v * COVERAGE_ONE / hi,
                CharDistributionType::ExactAdjustedWhites => (v - lo) * COVERAGE_ONE / hi,
            }
        }
    }

    /// The adjusted descriptor of `raw` within a set whose raw descriptors are `raws`.
    pub open spec fn adjusted(self, raw: Seq<u32>, raws: Seq<Seq<u32>>) -> Seq<u32> {
        raw.map_values(|v: u32| self.adjusted_value(v as int, set_min(raws), set_max(raws)) as u32)
    }

    pub fn adjust_value(&self, v: u32, lo: u32, hi: u32) -> (r: u32)
        requires
            lo <= v <= hi,
            hi <= COVERAGE_ONE,
        ensures
            r == self.adjusted_value(v as int, lo as int, hi as int),
            r <= COVERAGE_ONE,
    {
        if hi == 0 {
            return v;
        }
        proof {
            assert(v * COVERAGE_ONE <= hi * COVERAGE_ONE) by (nonlinear_arith)
                requires
                    v <= hi,
            ;
            assert((v - lo) * COVERAGE_ONE <= hi * COVERAGE_ONE) by (nonlinear_arith)
                requires
                    v - lo <= hi,
            ;
            vstd::arithmetic::div_mod::lemma_div_multiples_vanish(COVERAGE_ONE as int, hi as int);
            assert(0 <= (v - lo) * COVERAGE_ONE) by (nonlinear_arith)
                requires
                    v - lo >= 0,
            ;
        }
        match self {
            CharDistributionType::Exact => v,
            CharDistributionType::ExactAdjustedBlacks => {
                proof {
                    vstd::arithmetic::div_mod::lemma_div_is_ordered(
                        v * COVERAGE_ONE,
                        hi * COVERAGE_ONE,
                        hi as int,
                    );
                }
                ((v as u64 * COVERAGE_ONE as u64) / hi as u64) as u32
            },
            CharDistributionType::ExactAdjustedWhites => {
                proof {
                    vstd::arithmetic::div_mod::lemma_div_is_ordered(
                        (v - lo) * COVERAGE_ONE,
                        hi * COVERAGE_ONE,
                        hi as int,
                    );
                }
                (((v - lo) as u64 * COVERAGE_ONE as u64) / hi as u64) as u32
            },
        }
    }

    /// Recomputes the adjusted descriptor of every glyph from the raw ones.
    pub fn adjust_coverage(&self, chars: &mut Vec<RasterizedChar>)
        requires
            old(chars)@.len() > 0,
            forall|i: int| 0 <= i < old(chars)@.len() ==> valid_squares(#[trigger] old(chars)@[i].coverage@),
        ensures
            final(chars)@.len() == old(chars)@.len(),
            forall|i: int|
                0 <= i < final(chars)@.len() ==> {
                    let c = #[trigger] final(chars)@[i];
                    let o = old(chars)@[i];
                    &&& c.character == o.character
                    &&& c.raster_letter == o.raster_letter
                    &&& c.size == o.size
                    &&& c.alignment == o.alignment
                    &&& c.coverage == o.coverage
                    &&& c.adjusted_coverage@ == self.adjusted(
                        o.coverage@,
                        raw_descriptors(old(chars)@),
                    )
                    &&& valid_squares(c.adjusted_coverage@)
                },
    {
        let ghost raws = raw_descriptors(chars@);
        let n = chars.len();
        let mut hi: u32 = chars[0].coverage.max();
        let mut lo: u32 = chars[0].coverage.min();
        let mut i: usize = 1;
        while i < n
            invariant
                n == chars@.len(),
                raws == raw_descriptors(chars@),
                forall|k: int| 0 <= k < n ==> valid_squares(#[trigger] chars@[k].coverage@),
                1 <= i <= n,
                hi == set_max(raws.subrange(0, i as int)),
                lo == set_min(raws.subrange(0, i as int)),
            decreases n - i,
        {
            let m = chars[i].coverage.max();
            let l = chars[i].coverage.min();
            proof {
                let s = raws.subrange(0, i + 1);
                assert(s.drop_last() =~= raws.subrange(0, i as int));
                assert(s.last() == chars@[i as int].coverage@);
            }
            if m > hi {
                hi = m;
            }
            if l < lo {
                lo = l;
            }
            i += 1;
        }
        proof {
            assert(raws.subrange(0, n as int) =~= raws);
            lemma_set_bounds(raws);
        }
        let kind = *self;
        let mut j: usize = 0;
        while j < n
            invariant
                n == chars@.len(),
                n == old(chars)@.len(),
                raws == raw_descriptors(old(chars)@),
                hi == set_max(raws),
                lo == set_min(raws),
                hi <= COVERAGE_ONE,
                kind == *self,
                forall|k: int| 0 <= k < n ==> valid_squares(#[trigger] raws[k]),
                forall|k: int| 0 <= k < n ==> lo <= seq_min(#[trigger] raws[k]),
                forall|k: int| 0 <= k < n ==> seq_max(#[trigger] raws[k]) <= hi,
                0 <= j <= n,
                forall|k: int|
                    0 <= k < n ==> {
                        let c = #[trigger] chars@[k];
                        let o = old(chars)@[k];
                        &&& c.character == o.character
                        &&& c.raster_letter == o.raster_letter
                        &&& c.size == o.size
                        &&& c.alignment == o.alignment
                        &&& c.coverage == o.coverage
                    },
                forall|k: int|
                    0 <= k < j ==> {
                        let c = #[trigger] chars@[k];
                        &&& c.adjusted_coverage@ == self.adjusted(raws[k], raws)
                        &&& valid_squares(c.adjusted_coverage@)
                    },
            decreases n - j,
        {
            let adjust = |v: u32| -> (w: u32)
                ensures
                    lo <= v <= hi ==> w == kind.adjusted_value(v as int, lo as int, hi as int),
                    lo <= v <= hi ==> w <= COVERAGE_ONE,
                {
                    if lo <= v && v <= hi {
                        kind.adjust_value(v, lo, hi)
                    } else {
                        v
                    }
                };
            let ghost raw = raws[j as int];
            proof {
                assert(raw == chars@[j as int].coverage@);
                lemma_seq_min_is_min(raw);
                lemma_seq_max_is_max(raw);
            }
            let adjusted = chars[j].coverage.from_func(adjust);
            proof {
                assert(adjusted@ =~= self.adjusted(raw, raws));
            }
            chars[j].adjusted_coverage = adjusted;
            j += 1;
        }
    }
}

/// Every glyph maximum is at most `set_max`, every glyph minimum at least
/// `set_min`, and both lie in `[0, COVERAGE_ONE]`.
pub proof fn lemma_set_bounds(raws: Seq<Seq<u32>>)
    requires
        raws.len() > 0,
        forall|k: int| 0 <= k < raws.len() ==> valid_squares(#[trigger] raws[k]),
    ensures
        forall|k: int| 0 <= k < raws.len() ==> seq_max(#[trigger] raws[k]) <= set_max(raws),
        forall|k: int| 0 <= k < raws.len() ==> set_min(raws) <= seq_min(#[trigger] raws[k]),
        exists|k: int| 0 <= k < raws.len() && seq_max(#[trigger] raws[k]) == set_max(raws),
        0 <= set_min(raws) <= set_max(raws) <= COVERAGE_ONE,
    decreases raws.len(),
{
    let l = raws.last();
    lemma_seq_max_is_max(l);
    lemma_seq_min_is_min(l);
    assert(seq_min(l) <= l[0] <= seq_max(l));
    if raws.len() > 1 {
        let d = raws.drop_last();
        lemma_set_bounds(d);
        assert forall|k: int| 0 <= k < raws.len() implies seq_max(#[trigger] raws[k]) <= set_max(raws) && set_min(raws) <= seq_min(raws[k]) by {
            if k < raws.len() - 1 {
                assert(raws[k] == d[k]);
            }
        }
        let j = choose|j: int| 0 <= j < d.len() && seq_max(#[trigger] d[j]) == set_max(d);
        assert(raws[j] == d[j]);
        if seq_max(l) > set_max(d) {
            assert(seq_max(raws[raws.len() - 1]) == set_max(raws));
        }
    } else {
        assert(seq_max(raws[0]) == set_max(raws));
    }
}

/// The adjusted descriptors of a whole set with raw descriptors `raws`.
pub open spec fn adjusted_set(kind: CharDistributionType, raws: Seq<Seq<u32>>) -> Seq<Seq<u32>> {
    Seq::new(raws.len(), |k: int| kind.adjusted(raws[k], raws))
}

/// With `ExactAdjustedBlacks`, unless every glyph is blank, the largest
/// adjusted value over the whole set is exactly full coverage.
pub proof fn lemma_blacks_reach_full_coverage(raws: Seq<Seq<u32>>)
    requires
        raws.len() > 0,
        forall|k: int| 0 <= k < raws.len() ==> valid_squares(#[trigger] raws[k]),
        set_max(raws) > 0,
    ensures
        set_max(adjusted_set(CharDistributionType::ExactAdjustedBlacks, raws)) == COVERAGE_ONE,
{
    let kind = CharDistributionType::ExactAdjustedBlacks;
    let hi = set_max(raws);
    let adj = adjusted_set(kind, raws);
    lemma_set_bounds(raws);
    assert forall|k: int| 0 <= k < adj.len() implies valid_squares(#[trigger] adj[k]) by {
        lemma_seq_max_is_max(raws[k]);
        assert forall|i: int| 0 <= i < 16 implies adj[k][i] <= COVERAGE_ONE by {
            let v = raws[k][i] as int;
            assert(v * COVERAGE_ONE <= hi * COVERAGE_ONE) by (nonlinear_arith)
                requires
                    v <= hi,
            ;
            vstd::arithmetic::div_mod::lemma_div_is_ordered(v * COVERAGE_ONE, hi * COVERAGE_ONE, hi);
            vstd::arithmetic::div_mod::lemma_div_multiples_vanish(COVERAGE_ONE as int, hi);
            assert(0 <= v * COVERAGE_ONE) by (nonlinear_arith)
                requires
                    v >= 0,
            ;
            vstd::arithmetic::div_mod::lemma_div_pos_is_pos(v * COVERAGE_ONE, hi);
        }
    }
    let top = choose|k: int| 0 <= k < raws.len() && seq_max(#[trigger] raws[k]) == hi;
    lemma_seq_max_is_max(raws[top]);
    let i = choose|i: int| 0 <= i < raws[top].len() && raws[top][i] == seq_max(raws[top]);
    vstd::arithmetic::div_mod::lemma_div_multiples_vanish(COVERAGE_ONE as int, hi);
    assert(hi * COVERAGE_ONE == COVERAGE_ONE * hi);
    assert(adj[top][i] == COVERAGE_ONE);
    lemma_seq_max_is_max(adj[top]);
    lemma_set_bounds(adj);
}

/// With `Exact` the adjusted descriptor is the raw descriptor itself.
pub proof fn lemma_exact_keeps_raw(raw: Seq<u32>, raws: Seq<Seq<u32>>)
    ensures
        CharDistributionType::Exact.adjusted(raw, raws) == raw,
{
    assert(CharDistributionType::Exact.adjusted(raw, raws) =~= raw);
}

} // verus!
