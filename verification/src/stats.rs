//! A single-pass analysis of a raster: which alpha values occur, and the
//! set of distinct colors, probed up to a 256-entry cap.

use vstd::prelude::*;

verus! {

broadcast use vstd::seq_lib::seq_to_set_is_finite;

/// Number of pixels described by an RGBA byte sequence.
pub open spec fn num_px(rgba: Seq<u8>) -> int {
    rgba.len() as int / 4
}

/// The alpha byte of pixel `p`.
pub open spec fn px_alpha(rgba: Seq<u8>, p: int) -> u8 {
    rgba[4 * p + 3]
}

/// The color of pixel `p`, packed as the 24-bit integer `r·2^16 + g·2^8 + b`.
pub open spec fn px_color(rgba: Seq<u8>, p: int) -> u32 {
    (rgba[4 * p] * 0x1_0000 + rgba[4 * p + 1] * 0x100 + rgba[4 * p + 2]) as u32
}

/// Whether any of the first `n` pixels is not fully opaque.
pub open spec fn has_alpha_upto(rgba: Seq<u8>, n: int) -> bool {
    exists|p: int| 0 <= p < n && #[trigger] px_alpha(rgba, p) != 255
}

/// Whether the image uses transparency at all.
pub open spec fn spec_has_alpha(rgba: Seq<u8>) -> bool {
    has_alpha_upto(rgba, num_px(rgba))
}

/// Whether any of the first `n` pixels has an alpha value strictly between
/// 0 and 255.
pub open spec fn has_nonbinary_alpha_upto(rgba: Seq<u8>, n: int) -> bool {
    exists|p: int| 0 <= p < n && #[trigger] px_alpha(rgba, p) != 255 && px_alpha(rgba, p) != 0
}

/// Whether the image has alpha values other than 0 and 255; such an image
/// can only be stored at 32 bits per pixel in the legacy bitmap sub-format.
pub open spec fn spec_has_nonbinary_alpha(rgba: Seq<u8>) -> bool {
    has_nonbinary_alpha_upto(rgba, num_px(rgba))
}

/// The set of packed colors of the first `n` pixels.
pub open spec fn colors_upto(rgba: Seq<u8>, n: int) -> Set<u32>
    decreases n,
{
    if n <= 0 {
        Set::empty()
    } else {
        colors_upto(rgba, n - 1).insert(px_color(rgba, n - 1))
    }
}

/// The set of distinct packed colors of the whole image.
pub open spec fn spec_colors(rgba: Seq<u8>) -> Set<u32> {
    colors_upto(rgba, num_px(rgba))
}

/// A color prefix set is finite and no larger than its pixel count.
pub proof fn lemma_colors_upto_finite(rgba: Seq<u8>, n: int)
    ensures
        colors_upto(rgba, n).finite(),
        colors_upto(rgba, n).len() <= if n <= 0 { 0int } else { n },
    decreases n,
{
    if n > 0 {
        lemma_colors_upto_finite(rgba, n - 1);
    }
}

/// Every pixel among the first `n` has its color in the prefix set.
pub proof fn lemma_colors_upto_contains(rgba: Seq<u8>, n: int, p: int)
    requires
        0 <= p < n,
    ensures
        colors_upto(rgba, n).contains(px_color(rgba, p)),
    decreases n,
{
    if p < n - 1 {
        lemma_colors_upto_contains(rgba, n - 1, p);
    }
}

/// Strictly ascending, hence duplicate-free.
pub open spec fn sorted_strict(v: Seq<u32>) -> bool {
    forall|i: int, j: int| 0 <= i < j < v.len() ==> v[i] < v[j]
}

/// A strictly ascending sequence has no duplicates.
pub proof fn lemma_sorted_strict_no_duplicates(v: Seq<u32>)
    requires
        sorted_strict(v),
    ensures
        v.no_duplicates(),
{
    assert forall|i: int, j: int| 0 <= i < v.len() && 0 <= j < v.len() && i != j implies v[i]
        != v[j] by {
        if i < j {
            assert(v[i] < v[j]);
        } else {
            assert(v[j] < v[i]);
        }
    }
}

/// Dropping the last element of a strictly ascending sequence removes
/// exactly that element from its set of values.
proof fn lemma_sorted_strict_drop_last(a: Seq<u32>)
    requires
        sorted_strict(a),
        a.len() > 0,
    ensures
        a.drop_last().to_set() == a.to_set().remove(a.last()),
        sorted_strict(a.drop_last()),
{
    let d = a.drop_last();
    assert forall|c: u32| d.to_set().contains(c) implies a.to_set().remove(a.last()).contains(
        c,
    ) by {
        let i = choose|i: int| 0 <= i < d.len() && d[i] == c;
        assert(a[i] == c);
        assert(a[i] < a.last());
    }
    assert forall|c: u32| a.to_set().remove(a.last()).contains(c) implies d.to_set().contains(
        c,
    ) by {
        let i = choose|i: int| 0 <= i < a.len() && a[i] == c;
        assert(i != a.len() - 1);
        assert(d[i] == c);
    }
    assert(d.to_set() =~= a.to_set().remove(a.last()));
}

/// Two strictly ascending sequences with the same set of values are the
/// same sequence.
pub proof fn lemma_sorted_strict_equal(a: Seq<u32>, b: Seq<u32>)
    requires
        sorted_strict(a),
        sorted_strict(b),
        a.to_set() == b.to_set(),
    ensures
        a == b,
    decreases a.len(),
{
    if a.len() == 0 {
        if b.len() > 0 {
            assert(b.to_set().contains(b[0]));
            assert(a.to_set().contains(b[0]));
        }
        assert(a =~= b);
    } else {
        assert(a.to_set().contains(a.last()));
        assert(b.to_set().contains(b.last()));
        let i = choose|i: int| 0 <= i < b.len() && b[i] == a.last();
        let j = choose|j: int| 0 <= j < a.len() && a[j] == b.last();
        assert(a.last() == b.last()) by {
            assert(i < b.len() - 1 ==> b[i] < b.last());
            assert(j < a.len() - 1 ==> a[j] < a.last());
        }
        lemma_sorted_strict_drop_last(a);
        lemma_sorted_strict_drop_last(b);
        lemma_sorted_strict_equal(a.drop_last(), b.drop_last());
        assert(a =~= b) by {
            assert(a.drop_last() == b.drop_last());
            assert(a.len() == b.len());
            assert(forall|k: int|
                0 <= k < a.len() - 1 ==> a[k] == a.drop_last()[k] && b[k] == b.drop_last()[k]);
        }
    }
}

/// What the analysis of a raster records.
pub(crate) struct ImageStats {
    /// True if the image uses transparency.
    pub(crate) has_alpha: bool,
    /// True if the image has alpha values strictly between 0 and 255.
    pub(crate) has_nonbinary_alpha: bool,
    /// The distinct packed colors in ascending order, or `None` if the image
    /// has more than 256 of them.
    pub(crate) colors: Option<Vec<u32>>,
}

impl ImageStats {
    /// The statistics faithfully describe `rgba`.
    pub(crate) open spec fn describes(self, rgba: Seq<u8>) -> bool {
        &&& self.has_alpha == spec_has_alpha(rgba)
        &&& self.has_nonbinary_alpha == spec_has_nonbinary_alpha(rgba)
        &&& match self.colors {
            Some(v) => {
                &&& v@.len() <= 256
                &&& sorted_strict(v@)
                &&& v@.to_set() == spec_colors(rgba)
            },
            None => spec_colors(rgba).len() > 256,
        }
    }
}

/// Inserts `val` into a strictly ascending vector, keeping it strictly
/// ascending; a value already present is left alone.
fn sorted_insert(v: &mut Vec<u32>, val: u32)
    requires
        sorted_strict(old(v)@),
        old(v)@.len() < usize::MAX,
    ensures
        sorted_strict(final(v)@),
        final(v)@.to_set() == old(v)@.to_set().insert(val),
        final(v)@.len() == old(v)@.len() + (if old(v)@.to_set().contains(val) {
            0int
        } else {
            1int
        }),
{
    let mut i: usize = 0;
    while i < v.len() && v[i] < val
        invariant
            0 <= i <= v@.len(),
            sorted_strict(v@),
            forall|k: int| 0 <= k < i ==> v@[k] < val,
            v@ == old(v)@,
        decreases v@.len() - i,
    {
        i = i + 1;
    }
    if i < v.len() && v[i] == val {
        proof {
            assert(v@.to_set().contains(val));
            assert(v@.to_set() =~= v@.to_set().insert(val));
        }
        return ;
    }
    proof {
        assert(forall|k: int| i <= k < v@.len() ==> val < #[trigger] v@[k]);
        assert(!v@.to_set().contains(val)) by {
            if v@.to_set().contains(val) {
                let k = choose|k: int| 0 <= k < v@.len() && v@[k] == val;
            }
        }
    }
    v.insert(i, val);
    proof {
        assert(sorted_strict(v@));
        assert(v@.to_set() =~= old(v)@.to_set().insert(val)) by {
            assert(forall|c: u32| old(v)@.to_set().contains(c) ==> exists|k: int|
                0 <= k < old(v)@.len() && old(v)@[k] == c);
            assert(forall|k: int| 0 <= k < old(v)@.len() ==> v@.contains(#[trigger] old(v)@[k]))
                by {
                assert(forall|k: int| 0 <= k < i ==> v@[k] == old(v)@[k]);
                assert(forall|k: int|
                    i <= k < old(v)@.len() ==> v@[k + 1] == old(v)@[k] && v@.contains(v@[k + 1]));
            }
            assert(v@.contains(val)) by {
                assert(v@[i as int] == val);
            }
            assert(forall|k: int| 0 <= k < v@.len() ==> old(v)@.to_set().insert(val).contains(
                #[trigger] v@[k])) by {
                assert(forall|k: int| 0 <= k < i ==> v@[k] == old(v)@[k] && old(v)@.contains(
                    #[trigger] v@[k]));
                assert(forall|k: int|
                    i < k < v@.len() ==> v@[k] == old(v)@[k - 1] && old(v)@.contains(
                        #[trigger] v@[k]));
            }
        }
        lemma_sorted_strict_no_duplicates(v@);
        lemma_sorted_strict_no_duplicates(old(v)@);
        v@.unique_seq_to_set();
        old(v)@.unique_seq_to_set();
        assert(v@.to_set().len() == old(v)@.to_set().len() + 1) by {
            assert(!old(v)@.to_set().contains(val));
            vstd::set::axiom_set_insert_len(old(v)@.to_set(), val);
        }
    }
}

impl crate::image::IconImage {
    /// Analyzes the raster in one pass: whether transparency occurs, whether
    /// any alpha value is strictly between 0 and 255, and the distinct
    /// colors, given up beyond 256 of them.
    pub(crate) fn compute_stats(&self) -> (r: ImageStats)
        ensures
            r.describes(self@.rgba),
    {
        let rgba = self.rgba_data();
        let ghost grgba = self@.rgba;
        let len = rgba.len();
        let n = len / 4;
        proof {
            let px = (self@.width as int) * (self@.height as int);
            assert(grgba.len() == 4 * px) by {
                vstd::arithmetic::mul::lemma_mul_is_associative(
                    4,
                    self@.width as int,
                    self@.height as int,
                );
            }
            vstd::arithmetic::div_mod::lemma_div_multiples_vanish(px, 4);
            assert(n as int == px);
        }
        let mut has_alpha = false;
        let mut has_nonbinary_alpha = false;
        let mut colors: Vec<u32> = Vec::new();
        let mut p: usize = 0;
        while p < n
            invariant
                0 <= p <= n,
                grgba == self@.rgba,
                rgba@ == grgba,
                4 * (n as int) == grgba.len(),
                grgba.len() <= usize::MAX,
                has_alpha == has_alpha_upto(grgba, p as int),
                has_nonbinary_alpha == has_nonbinary_alpha_upto(grgba, p as int),
                sorted_strict(colors@),
                colors@.len() <= 257,
                colors@.len() <= 256 ==> colors@.to_set() == colors_upto(grgba, p as int),
                colors@.len() == 257 ==> colors_upto(grgba, p as int).len() > 256,
            decreases n - p,
        {
            let alpha = rgba[4 * p + 3];
            assert(alpha == px_alpha(grgba, p as int));
            if alpha != 255 {
                has_alpha = true;
                if alpha != 0 {
                    has_nonbinary_alpha = true;
                }
            }
            proof {
                assert(has_alpha == has_alpha_upto(grgba, p + 1)) by {
                    if has_alpha_upto(grgba, p + 1) && !has_alpha_upto(grgba, p as int)
                        && px_alpha(grgba, p as int) == 255 {
                        let q = choose|q: int|
                            0 <= q < p + 1 && #[trigger] px_alpha(grgba, q) != 255;
                        assert(q == p);
                    }
                }
                assert(has_nonbinary_alpha == has_nonbinary_alpha_upto(grgba, p + 1)) by {
                    if has_nonbinary_alpha_upto(grgba, p + 1) && !has_nonbinary_alpha_upto(
                        grgba,
                        p as int,
                    ) {
                        let q = choose|q: int|
                            0 <= q < p + 1 && #[trigger] px_alpha(grgba, q) != 255 && px_alpha(
                                grgba,
                                q,
                            ) != 0;
                        assert(q == p);
                    }
                }
            }
            let red = rgba[4 * p];
            let green = rgba[4 * p + 1];
            let blue = rgba[4 * p + 2];
            let packed: u32 = (red as u32) * 0x1_0000 + (green as u32) * 0x100 + (blue as u32);
            assert(packed == px_color(grgba, p as int));
            if colors.len() <= 256 {
                sorted_insert(&mut colors, packed);
                proof {
                    assert(colors@.to_set() == colors_upto(grgba, p + 1));
                    if colors@.len() == 257 {
                        lemma_sorted_strict_no_duplicates(colors@);
                        colors@.unique_seq_to_set();
                        assert(colors_upto(grgba, p + 1).len() > 256);
                    }
                }
            } else {
                proof {
                    lemma_colors_upto_finite(grgba, p + 1);
                    assert(colors_upto(grgba, p as int).subset_of(colors_upto(grgba, p + 1)));
                    vstd::set_lib::lemma_len_subset(
                        colors_upto(grgba, p as int),
                        colors_upto(grgba, p + 1),
                    );
                }
            }
            p = p + 1;
        }
        let colors_opt = if colors.len() <= 256 {
            Some(colors)
        } else {
            None
        };
        ImageStats { has_alpha, has_nonbinary_alpha, colors: colors_opt }
    }
}

} // verus!
