use vstd::prelude::*;

verus! {

/// Width of each luminance bucket when `0..=255` is split into `n` buckets.
pub open spec fn bucket_width(n: nat) -> nat
    recommends
        1 <= n <= 256,
{
    256nat / n
}

/// Bucket of `luminance` among `n` equal-width buckets, the last one absorbing
/// the remainder; `invert` mirrors the index.
pub open spec fn bucket_spec(luminance: nat, n: nat, invert: bool) -> nat
    recommends
        1 <= n <= 256,
{
    let idx = if luminance / bucket_width(n) < n {
        luminance / bucket_width(n)
    } else {
        (n - 1) as nat
    };
    if invert {
        (n - 1 - idx) as nat
    } else {
        idx
    }
}

/// Index of the bucket that `luminance` falls in, among `n` buckets.
pub fn bucket_index(luminance: u8, n: usize, invert: bool) -> (r: usize)
    requires
        1 <= n <= 256,
    ensures
        r == bucket_spec(luminance as nat, n as nat, invert),
        r < n,
{
    let width: usize = 256 / n;
    assert(width >= 1) by (nonlinear_arith)
        requires
            width as int == 256int / (n as int),
            1 <= n <= 256,
    ;
    let q: usize = luminance as usize / width;
    let idx: usize = if q < n { q } else { n - 1 };
    if invert {
        n - 1 - idx
    } else {
        idx
    }
}

/// Every luminance falls in one of the `n` buckets, whichever the polarity.
pub proof fn lemma_bucket_in_range(luminance: nat, n: nat)
    requires
        luminance <= 255,
        1 <= n <= 256,
    ensures
        bucket_spec(luminance, n, false) < n,
        bucket_spec(luminance, n, true) < n,
{
    let w = bucket_width(n);
    assert(w >= 1) by (nonlinear_arith)
        requires
            w == 256nat / n,
            1 <= n <= 256,
    ;
    assert(luminance / w >= 0);
}

/// The buckets cover `0..=255` without gaps or overlaps: the darkest value is in
/// the first bucket, the brightest in the last, and one step of luminance moves
/// to the same bucket or to the next one.
pub proof fn lemma_buckets_partition(luminance: nat, n: nat)
    requires
        luminance < 255,
        1 <= n <= 256,
    ensures
        bucket_spec(0, n, false) == 0,
        bucket_spec(255, n, false) == n - 1,
        bucket_spec(luminance, n, false) <= bucket_spec(luminance + 1, n, false),
        bucket_spec(luminance + 1, n, false) <= bucket_spec(luminance, n, false) + 1,
{
    let w = bucket_width(n);
    assert(1 <= w && w * n <= 256) by (nonlinear_arith)
        requires
            w == 256nat / n,
            1 <= n <= 256,
    ;
    assert(0nat / w == 0) by (nonlinear_arith)
        requires
            w >= 1,
    ;
    assert(255nat / w >= n - 1) by (nonlinear_arith)
        requires
            w >= 1,
            w * n <= 256,
    ;
    assert(luminance / w <= (luminance + 1) / w <= luminance / w + 1) by (nonlinear_arith)
        requires
            w >= 1,
    ;
}

/// Inverting the polarity mirrors the bucket index.
pub proof fn lemma_inversion_symmetry(luminance: nat, n: nat)
    requires
        luminance <= 255,
        1 <= n <= 256,
    ensures
        bucket_spec(luminance, n, true) == (n - 1) - bucket_spec(luminance, n, false),
{
}

/// The glyphs, from the one shown for the lowest bucket to the highest.
pub open spec fn palette() -> Seq<char> {
    seq![' ', '\u{25A1}', '\u{25A7}', '\u{25A5}', '\u{25A9}', '\u{25A6}', '\u{25A3}', '\u{25A0}']
}

/// The glyph of `palette` shown for `luminance`.
pub open spec fn glyph_of(palette: Seq<char>, luminance: nat, invert: bool) -> char {
    palette[bucket_spec(luminance, palette.len(), invert) as int]
}

/// An ordered palette of display glyphs.
pub struct Symbols {
    characters: Vec<char>,
}

impl View for Symbols {
    type V = Seq<char>;

    closed spec fn view(&self) -> Seq<char> {
        self.characters@
    }
}

impl Symbols {
    /// A palette can serve as many buckets as it has glyphs.
    pub open spec fn wf(&self) -> bool {
        1 <= self@.len() <= 256
    }

    /// The glyph shown for `luminance`.
    pub open spec fn glyph_spec(&self, luminance: nat, invert: bool) -> char {
        glyph_of(self@, luminance, invert)
    }

    /// The standard palette of eight glyphs, from blank to solid.
    pub fn new() -> (s: Symbols)
        ensures
            s@ == palette(),
            s.wf(),
    {
        let characters: Vec<char> = vec![
            ' ',
            '\u{25A1}',
            '\u{25A7}',
            '\u{25A5}',
            '\u{25A9}',
            '\u{25A6}',
            '\u{25A3}',
            '\u{25A0}',
        ];
        let s = Symbols { characters };
        assert(s@ =~= palette());
        s
    }

    /// Bucket of `luminance` for this palette.
    pub fn get_intensity(&self, luminance: u8, invert: bool) -> (r: usize)
        requires
            self.wf(),
        ensures
            r == bucket_spec(luminance as nat, self@.len(), invert),
            r < self@.len(),
    {
        bucket_index(luminance, self.characters.len(), invert)
    }

    /// Glyph of `luminance` for this palette.
    pub fn get_ascii_value(&self, luminance: u8, invert: bool) -> (r: char)
        requires
            self.wf(),
        ensures
            r == self.glyph_spec(luminance as nat, invert),
    {
        self.characters[self.get_intensity(luminance, invert)]
    }
}

} // verus!
