//! Page geometry: canvas size, channel capacity, and the mapping from a
//! flat bit-sequence index to the pixel coordinate that carries it.
//!
//! Coordinates are relative to the upper-left corner of the first cross;
//! the page border is not counted here.

use vstd::prelude::*;
use crate::fec::FecOrder;

verus! {

use vstd::arithmetic::div_mod::{lemma_fundamental_div_mod,
    lemma_fundamental_div_mod_converse_div, lemma_fundamental_div_mod_converse_mod,
    lemma_div_pos_is_pos};
use vstd::arithmetic::power2::{pow2, lemma2_to64, lemma_pow2_pos};

/// The immutable layout configuration. All derived quantities are pure
/// functions of these fields.
pub struct Settings {
    /// Thickness of the dark page border, in pixels.
    pub border: u64,
    /// Half-size of a cross; a cross covers `2 * chalf` by `2 * chalf` pixels.
    pub chalf: u64,
    /// Distance between cross centers.
    pub cpitch: u64,
    pub text_width: u64,
    /// Height of the label strip at the bottom of the page.
    pub text_height: u64,
    /// Number of crosses horizontally.
    pub xcrosses: u64,
    /// Number of crosses vertically.
    pub ycrosses: u64,
    pub fec_order: FecOrder,
}

/// `a / b == q` and `a % b == r` follow from `a == q * b + r` with `r` in range.
pub(crate) proof fn lemma_divmod(a: int, b: int, q: int, r: int)
    requires
        b > 0,
        0 <= r < b,
        a == q * b + r,
    ensures
        a / b == q,
        a % b == r,
{
    lemma_fundamental_div_mod_converse_div(a, b, q, r);
    lemma_fundamental_div_mod_converse_mod(a, b, q, r);
}

impl Settings {
    /// A usable configuration: the cross pitch leaves a positive gap between
    /// crosses, at least one cross in each direction, a supported code order,
    /// and a canvas small enough that every derived pixel count fits the
    /// machine's arithmetic.
    pub open spec fn wf(self) -> bool {
        &&& 1 <= self.chalf
        &&& 2 * self.chalf < self.cpitch
        &&& self.cpitch <= 0x7FFF
        &&& 1 <= self.xcrosses <= 0xFFFF
        &&& 1 <= self.ycrosses <= 0x7FFF
        &&& self.border <= 0x3FFF
        &&& self.text_height <= 0x3FFF
        &&& self.spec_width() <= 0xFFFF
        &&& self.spec_height() <= 0x7FFF
        &&& self.fec_order.wf()
    }

    /// Width of the rectangle occupied by the data and the crosses.
    pub open spec fn spec_data_width(self) -> int {
        self.cpitch * (self.xcrosses - 1) + 2 * self.chalf
    }

    /// Height of the rectangle occupied by the data and the crosses.
    pub open spec fn spec_data_height(self) -> int {
        self.cpitch * (self.ycrosses - 1) + 2 * self.chalf
    }

    /// Canvas width: data rectangle plus the border on both sides.
    pub open spec fn spec_width(self) -> int {
        2 * self.border + self.spec_data_width()
    }

    /// Canvas height: data rectangle, borders, and the label strip.
    pub open spec fn spec_height(self) -> int {
        2 * self.border + self.spec_data_height() + self.text_height
    }

    /// Height of the narrow strip, the one that runs between crosses.
    pub open spec fn spec_narrow_height(self) -> int {
        2 * self.chalf
    }

    /// Width of one gap between two neighbouring crosses.
    pub open spec fn spec_gap_width(self) -> int {
        self.cpitch - 2 * self.chalf
    }

    /// Data pixels per row of the narrow strip: the gaps, crosses skipped.
    pub open spec fn spec_narrow_width(self) -> int {
        self.spec_gap_width() * (self.xcrosses - 1)
    }

    /// Data pixels in one narrow strip.
    pub open spec fn spec_narrow_pixels(self) -> int {
        self.spec_narrow_height() * self.spec_narrow_width()
    }

    /// Height of the wide strip, the one clear of crosses.
    pub open spec fn spec_wide_height(self) -> int {
        self.spec_gap_width()
    }

    /// Width of the wide strip: the full data rectangle.
    pub open spec fn spec_wide_width(self) -> int {
        self.spec_width() - 2 * self.border
    }

    /// Data pixels in one wide strip.
    pub open spec fn spec_wide_pixels(self) -> int {
        self.spec_wide_height() * self.spec_wide_width()
    }

    /// Height of one narrow-plus-wide strip pair.
    pub open spec fn spec_rep_height(self) -> int {
        self.spec_narrow_height() + self.spec_wide_height()
    }

    /// Data pixels in one narrow-plus-wide strip pair.
    pub open spec fn spec_rep_pixels(self) -> int {
        self.spec_narrow_pixels() + self.spec_wide_pixels()
    }

    /// All data-carrying pixel slots on one page: a full strip pair per
    /// cross row but the last, then one trailing narrow strip.
    pub open spec fn spec_total_bits(self) -> int {
        self.spec_rep_pixels() * (self.ycrosses - 1) + self.spec_narrow_pixels()
    }

    /// Whole code symbols that fit on one page.
    pub open spec fn spec_fec_syms(self) -> int {
        self.spec_total_bits() / self.fec_order.spec_large_bits()
    }

    /// Net payload capacity of one page, in bits.
    pub open spec fn spec_net_bits(self) -> int {
        self.spec_fec_syms() * self.fec_order.spec_small_bits()
    }

    /// Channel bits actually used by whole symbols on one page.
    pub open spec fn spec_used_bits(self) -> int {
        self.spec_fec_syms() * self.fec_order.spec_large_bits()
    }

    /// Whether the pixel at `(x, y)` lies under a cross of the fiducial grid.
    pub open spec fn spec_is_cross(self, x: int, y: int) -> bool {
        x % (self.cpitch as int) < 2 * self.chalf && y % (self.cpitch as int) < 2 * self.chalf
    }

    /// The coordinate that carries sequence index `seq`.
    pub open spec fn spec_seq2xy(self, seq: int) -> (int, int) {
        let rep = seq / self.spec_rep_pixels();
        let s = seq % self.spec_rep_pixels();
        if s >= self.spec_narrow_pixels() {
            let w = s - self.spec_narrow_pixels();
            (w % self.spec_wide_width(),
             rep * self.spec_rep_height() + self.spec_narrow_height() + w / self.spec_wide_width())
        } else {
            let row = s / self.spec_narrow_width();
            let t = s % self.spec_narrow_width();
            let gap = t / self.spec_gap_width();
            let o = t % self.spec_gap_width();
            (2 * self.chalf + gap * self.cpitch + o,
             rep * self.spec_rep_height() + row)
        }
    }

    /// The sequence index carried by the coordinate `(x, y)`; inverse of
    /// `spec_seq2xy` on the non-cross coordinates of the data rectangle.
    pub open spec fn spec_xy2seq(self, x: int, y: int) -> int {
        let rep = y / self.spec_rep_height();
        let ry = y % self.spec_rep_height();
        if ry < self.spec_narrow_height() {
            let gap = (x - 2 * self.chalf) / (self.cpitch as int);
            let o = (x - 2 * self.chalf) % (self.cpitch as int);
            rep * self.spec_rep_pixels() + ry * self.spec_narrow_width()
                + gap * self.spec_gap_width() + o
        } else {
            rep * self.spec_rep_pixels() + self.spec_narrow_pixels()
                + (ry - self.spec_narrow_height()) * self.spec_wide_width() + x
        }
    }

    /// Bounds and positivity of the derived dimensions, and the bit-slot
    /// budget they imply; everything later arithmetic needs to stay in range.
    pub proof fn lemma_dims(self)
        requires
            self.wf(),
        ensures
            1 <= self.spec_gap_width(),
            2 <= self.spec_narrow_height() < self.spec_rep_height(),
            self.spec_rep_height() == self.cpitch,
            2 <= self.spec_wide_width() == self.spec_data_width() <= 0xFFFF,
            self.spec_data_height() <= 0x7FFF,
            0 <= self.spec_narrow_width() <= 0xFFFF,
            0 <= self.spec_narrow_pixels() <= 0x7FFF_FFFF,
            1 <= self.spec_wide_pixels() <= 0x7FFF_FFFF,
            1 <= self.spec_rep_pixels() <= 0xFFFF_FFFF,
            self.spec_narrow_pixels() < self.spec_rep_pixels(),
            0 <= self.spec_total_bits() <= 0x7FFF_FFFF_FFFF,
            self.spec_narrow_width() == 0 ==> self.spec_narrow_pixels() == 0,
            self.spec_narrow_pixels() > 0 ==> self.spec_narrow_width() >= 1,
            1 <= self.fec_order.spec_large_bits() <= 64,
            0 <= self.fec_order.spec_small_bits() <= self.fec_order.spec_large_bits(),
    {
        let cp = self.cpitch as int;
        let c2 = 2 * self.chalf as int;
        let gw = self.spec_gap_width();
        let xc = self.xcrosses as int;
        let yc = self.ycrosses as int;
        let dw = self.spec_data_width();
        let dh = self.spec_data_height();
        assert(0 <= cp * (xc - 1) <= 0x7FFF * 0xFFFF) by (nonlinear_arith)
            requires 0 <= cp <= 0x7FFF && 0 <= xc - 1 <= 0xFFFF;
        assert(0 <= cp * (yc - 1)) by (nonlinear_arith)
            requires 0 <= cp && 0 <= yc - 1;
        assert(0 <= gw * (xc - 1) <= cp * (xc - 1)) by (nonlinear_arith)
            requires 0 <= gw <= cp && 0 <= xc - 1;
        assert(0 <= self.spec_narrow_height() * self.spec_narrow_width()
            <= 0x7FFF * 0xFFFF) by (nonlinear_arith)
            requires 0 <= self.spec_narrow_height() <= 0x7FFF
                && 0 <= self.spec_narrow_width() <= 0xFFFF;
        assert(1 * 2 <= self.spec_wide_height() * self.spec_wide_width()
            && self.spec_wide_height() * self.spec_wide_width() <= 0x7FFF * 0xFFFF)
            by (nonlinear_arith)
            requires 1 <= self.spec_wide_height() <= 0x7FFF
                && 2 <= self.spec_wide_width() <= 0xFFFF;
        assert(0 <= self.spec_rep_pixels() * (yc - 1) <= 0xFFFF_FFFF * 0x7FFF)
            by (nonlinear_arith)
            requires 0 <= self.spec_rep_pixels() <= 0xFFFF_FFFF && 0 <= yc - 1 <= 0x7FFF;
        assert(self.spec_narrow_width() == 0 ==> self.spec_narrow_pixels() == 0)
            by (nonlinear_arith);
        assert(self.spec_narrow_pixels() > 0 ==> self.spec_narrow_width() >= 1)
            by (nonlinear_arith);
        match self.fec_order {
            FecOrder::Golay => {},
            FecOrder::Hamming(x) => {
                lemma_pow2_pos(x as nat);
                lemma2_to64();
                if x < 6 {
                    vstd::arithmetic::power2::lemma_pow2_strictly_increases(x as nat, 6);
                }
                assert(1 <= pow2(x as nat) && x + 1 <= pow2(x as nat));
            },
        }
    }

    /// A sequence index below `total_bits` lands inside the data rectangle,
    /// never under a cross, and `spec_xy2seq` maps the coordinate back to it.
    pub proof fn lemma_seq2xy_in_range(self, seq: int)
        requires
            self.wf(),
            0 <= seq < self.spec_total_bits(),
        ensures
            ({
                let (x, y) = self.spec_seq2xy(seq);
                &&& 0 <= x < self.spec_data_width()
                &&& 0 <= y < self.spec_data_height()
                &&& !self.spec_is_cross(x, y)
                &&& self.spec_xy2seq(x, y) == seq
            }),
    {
        self.lemma_dims();
        let cp = self.cpitch as int;
        let c2 = 2 * self.chalf as int;
        let gw = self.spec_gap_width();
        let xc = self.xcrosses as int;
        let bigr = self.ycrosses as int - 1;
        let np = self.spec_narrow_pixels();
        let nw = self.spec_narrow_width();
        let nh = self.spec_narrow_height();
        let wp = self.spec_wide_pixels();
        let ww = self.spec_wide_width();
        let wh = self.spec_wide_height();
        let rp = self.spec_rep_pixels();
        let rh = self.spec_rep_height();
        let tb = self.spec_total_bits();
        let dw = self.spec_data_width();
        let dh = self.spec_data_height();

        let rep = seq / rp;
        let s = seq % rp;
        lemma_fundamental_div_mod(seq, rp);
        assert(seq == rp * rep + s);
        assert(rep >= 0) by {
            lemma_div_pos_is_pos(seq, rp);
        }
        assert(rep <= bigr) by (nonlinear_arith)
            requires
                seq == rp * rep + s,
                0 <= s,
                seq < tb,
                tb == rp * bigr + np,
                np <= rp,
                rp > 0,
                rep >= 0;
        assert(rep == bigr ==> s < np) by (nonlinear_arith)
            requires
                seq == rp * rep + s,
                seq < tb,
                tb == rp * bigr + np;
        assert(dh == rh * bigr + nh) by (nonlinear_arith)
            requires
                dh == cp * bigr + nh,
                rh == cp;

        if s >= np {
            // Wide strip of the pair.
            let w = s - np;
            assert(0 <= w < wp);
            let wrow = w / ww;
            let wx = w % ww;
            lemma_fundamental_div_mod(w, ww);
            assert(w == ww * wrow + wx);
            assert(wrow >= 0) by {
                lemma_div_pos_is_pos(w, ww);
            }
            assert(wrow < wh) by (nonlinear_arith)
                requires
                    w == ww * wrow + wx,
                    0 <= wx,
                    w < wh * ww,
                    ww > 0,
                    wrow >= 0;
            let x = wx;
            let y = rep * rh + nh + wrow;
            assert(self.spec_seq2xy(seq) == (x, y));
            assert(rep < bigr);
            // In the rectangle.
            assert(rep * rh + rh <= bigr * rh) by (nonlinear_arith)
                requires rep + 1 <= bigr && rh >= 0;
            assert(0 <= rep * rh) by (nonlinear_arith)
                requires rep >= 0 && rh >= 0;
            assert(rep * rh <= (bigr - 1) * rh) by (nonlinear_arith)
                requires rep <= bigr - 1 && 0 <= rh;
            assert((bigr - 1) * rh == rh * bigr - rh) by (nonlinear_arith);
            assert(y < dh);
            // Not a cross: the wide strip rows sit past the cross band.
            lemma_divmod(y, cp, rep, nh + wrow);
            assert(!self.spec_is_cross(x, y));
            // Inverse.
            assert(y / rh == rep && y % rh == nh + wrow) by {
                lemma_divmod(y, rh, rep, nh + wrow);
            }
            assert(self.spec_xy2seq(x, y)
                == rep * rp + np + wrow * ww + wx);
            assert(wrow * ww == ww * wrow) by (nonlinear_arith);
            assert(rep * rp == rp * rep) by (nonlinear_arith);
        } else {
            // Narrow strip of the pair.
            assert(np > 0);
            assert(nw >= 1);
            let row = s / nw;
            let t = s % nw;
            lemma_fundamental_div_mod(s, nw);
            assert(s == nw * row + t);
            assert(row >= 0) by {
                lemma_div_pos_is_pos(s, nw);
            }
            assert(row < nh) by (nonlinear_arith)
                requires
                    s == nw * row + t,
                    0 <= t,
                    s < nh * nw,
                    nw > 0,
                    row >= 0;
            let gap = t / gw;
            let o = t % gw;
            lemma_fundamental_div_mod(t, gw);
            assert(t == gw * gap + o);
            assert(gap >= 0) by {
                lemma_div_pos_is_pos(t, gw);
            }
            assert(gap < xc - 1) by (nonlinear_arith)
                requires
                    t == gw * gap + o,
                    0 <= o,
                    t < gw * (xc - 1),
                    gw > 0,
                    gap >= 0;
            let x = c2 + gap * cp + o;
            let y = rep * rh + row;
            assert(self.spec_seq2xy(seq) == (x, y));
            // In the rectangle.
            assert(0 <= gap * cp) by (nonlinear_arith)
                requires gap >= 0 && cp >= 0;
            assert(gap * cp + cp <= (xc - 1) * cp) by (nonlinear_arith)
                requires gap + 1 <= xc - 1 && cp >= 0;
            assert(x < dw) by (nonlinear_arith)
                requires
                    x == c2 + gap * cp + o,
                    o < gw,
                    gw == cp - c2,
                    gap * cp + cp <= (xc - 1) * cp,
                    dw == cp * (xc - 1) + c2,
                    (xc - 1) * cp == cp * (xc - 1),
                    c2 >= 0;
            assert(0 <= rep * rh) by (nonlinear_arith)
                requires rep >= 0 && rh >= 0;
            assert(rep * rh <= bigr * rh) by (nonlinear_arith)
                requires rep <= bigr && rh >= 0;
            assert(y < dh) by (nonlinear_arith)
                requires
                    y == rep * rh + row,
                    rep * rh <= bigr * rh,
                    row < nh,
                    dh == rh * bigr + nh;
            // Not a cross: x falls in a gap between crosses.
            lemma_divmod(x, cp, gap, c2 + o);
            assert(x % cp >= c2);
            assert(!self.spec_is_cross(x, y));
            // Inverse.
            assert(y / rh == rep && y % rh == row) by {
                lemma_divmod(y, rh, rep, row);
            }
            assert(x - c2 == gap * cp + o);
            assert((x - c2) / cp == gap && (x - c2) % cp == o) by {
                lemma_divmod(x - c2, cp, gap, o);
            }
            assert(self.spec_xy2seq(x, y)
                == rep * rp + row * nw + gap * gw + o);
            assert(row * nw == nw * row) by (nonlinear_arith);
            assert(gap * gw == gw * gap) by (nonlinear_arith);
            assert(rep * rp == rp * rep) by (nonlinear_arith);
        }
    }

    /// Every non-cross coordinate of the data rectangle is hit: its sequence
    /// index is in range and `spec_seq2xy` maps it back to the coordinate.
    /// Together with `lemma_seq2xy_in_range` this makes `spec_seq2xy` a
    /// bijection from `[0, total_bits)` onto the non-cross coordinates.
    pub proof fn lemma_xy2seq_in_range(self, x: int, y: int)
        requires
            self.wf(),
            0 <= x < self.spec_data_width(),
            0 <= y < self.spec_data_height(),
            !self.spec_is_cross(x, y),
        ensures
            0 <= self.spec_xy2seq(x, y) < self.spec_total_bits(),
            self.spec_seq2xy(self.spec_xy2seq(x, y)) == (x, y),
    {
        self.lemma_dims();
        let cp = self.cpitch as int;
        let c2 = 2 * self.chalf as int;
        let gw = self.spec_gap_width();
        let xc = self.xcrosses as int;
        let bigr = self.ycrosses as int - 1;
        let np = self.spec_narrow_pixels();
        let nw = self.spec_narrow_width();
        let nh = self.spec_narrow_height();
        let wp = self.spec_wide_pixels();
        let ww = self.spec_wide_width();
        let wh = self.spec_wide_height();
        let rp = self.spec_rep_pixels();
        let rh = self.spec_rep_height();
        let tb = self.spec_total_bits();
        let dw = self.spec_data_width();
        let dh = self.spec_data_height();

        let rep = y / rh;
        let ry = y % rh;
        lemma_fundamental_div_mod(y, rh);
        assert(y == rh * rep + ry);
        assert(rep >= 0) by {
            lemma_div_pos_is_pos(y, rh);
        }
        assert(dh == rh * bigr + nh) by (nonlinear_arith)
            requires
                dh == cp * bigr + nh,
                rh == cp;
        assert(rep <= bigr) by (nonlinear_arith)
            requires
                y == rh * rep + ry,
                0 <= ry,
                y < dh,
                dh == rh * bigr + nh,
                nh < rh,
                rh > 0,
                rep >= 0;
        assert(rep == bigr ==> ry < nh) by (nonlinear_arith)
            requires
                y == rh * rep + ry,
                y < dh,
                dh == rh * bigr + nh;

        if ry < nh {
            // A cross row: the coordinate must sit in a gap.
            assert(y % cp < c2) by {
                assert(y == rep * cp + ry) by (nonlinear_arith)
                    requires y == rh * rep + ry && rh == cp;
                lemma_divmod(y, cp, rep, ry);
            }
            assert(x % cp >= c2);
            let q = x / cp;
            let m = x % cp;
            lemma_fundamental_div_mod(x, cp);
            assert(x == cp * q + m);
            assert(q >= 0) by {
                lemma_div_pos_is_pos(x, cp);
            }
            assert(q < xc - 1) by (nonlinear_arith)
                requires
                    x == cp * q + m,
                    m >= c2,
                    x < dw,
                    dw == cp * (xc - 1) + c2,
                    cp > 0,
                    q >= 0;
            assert(x - c2 == q * cp + (m - c2)) by (nonlinear_arith)
                requires x == cp * q + m;
            assert((x - c2) / cp == q && (x - c2) % cp == m - c2) by {
                lemma_divmod(x - c2, cp, q, m - c2);
            }
            let t = q * gw + (m - c2);
            assert(0 <= t && t < nw) by (nonlinear_arith)
                requires
                    t == q * gw + (m - c2),
                    0 <= m - c2 < gw,
                    0 <= q,
                    q + 1 <= xc - 1,
                    nw == gw * (xc - 1),
                    gw > 0;
            let s = ry * nw + t;
            assert(0 <= s && s < np) by (nonlinear_arith)
                requires
                    s == ry * nw + t,
                    0 <= t < nw,
                    0 <= ry,
                    ry + 1 <= nh,
                    np == nh * nw,
                    nw > 0;
            let seq = rep * rp + s;
            assert(self.spec_xy2seq(x, y) == seq);
            assert(0 <= seq && seq < tb) by (nonlinear_arith)
                requires
                    seq == rep * rp + s,
                    0 <= s < np,
                    0 <= rep <= bigr,
                    tb == rp * bigr + np,
                    rp > 0;
            // Forward again.
            assert(seq / rp == rep && seq % rp == s) by {
                assert(seq == rep * rp + s && rep * rp == rp * rep) by (nonlinear_arith)
                    requires seq == rep * rp + s;
                lemma_divmod(seq, rp, rep, s);
            }
            assert(s / nw == ry && s % nw == t) by {
                assert(s == ry * nw + t && ry * nw == nw * ry) by (nonlinear_arith)
                    requires s == ry * nw + t;
                lemma_divmod(s, nw, ry, t);
            }
            assert(t / gw == q && t % gw == m - c2) by {
                assert(t == q * gw + (m - c2) && q * gw == gw * q) by (nonlinear_arith)
                    requires t == q * gw + (m - c2);
                lemma_divmod(t, gw, q, m - c2);
            }
            assert(self.spec_seq2xy(seq) == (c2 + q * cp + (m - c2), rep * rh + ry));
            assert(c2 + q * cp + (m - c2) == x) by (nonlinear_arith)
                requires x == cp * q + m;
            assert(rep * rh + ry == y) by (nonlinear_arith)
                requires y == rh * rep + ry;
        } else {
            // A wide row.
            assert(rep < bigr);
            let wrow = ry - nh;
            assert(0 <= wrow < wh);
            let w = wrow * ww + x;
            assert(0 <= w && w < wp) by (nonlinear_arith)
                requires
                    w == wrow * ww + x,
                    0 <= x < ww,
                    0 <= wrow,
                    wrow + 1 <= wh,
                    wp == wh * ww,
                    ww > 0;
            let s = np + w;
            let seq = rep * rp + s;
            assert(self.spec_xy2seq(x, y) == seq);
            assert(0 <= seq && seq < tb) by (nonlinear_arith)
                requires
                    seq == rep * rp + s,
                    np <= s < rp,
                    0 <= rep,
                    rep + 1 <= bigr,
                    tb == rp * bigr + np,
                    rp > 0,
                    0 <= np;
            // Forward again.
            assert(seq / rp == rep && seq % rp == s) by {
                assert(rep * rp == rp * rep) by (nonlinear_arith);
                lemma_divmod(seq, rp, rep, s);
            }
            assert(w / ww == wrow && w % ww == x) by {
                assert(wrow * ww == ww * wrow) by (nonlinear_arith);
                lemma_divmod(w, ww, wrow, x);
            }
            assert(self.spec_seq2xy(seq) == (x, rep * rh + nh + wrow));
            assert(rep * rh + nh + wrow == y) by (nonlinear_arith)
                requires
                    y == rh * rep + ry,
                    ry == nh + wrow;
        }
    }

    /// The page's whole symbols use `fec_syms * large_bits` channel bits,
    /// never more than the page offers, and carry `fec_syms * small_bits`
    /// payload bits.
    pub proof fn lemma_capacity(self)
        requires
            self.wf(),
        ensures
            self.spec_used_bits() == self.spec_fec_syms() * self.fec_order.spec_large_bits(),
            0 <= self.spec_used_bits() <= self.spec_total_bits(),
            self.spec_net_bits() == self.spec_fec_syms() * self.fec_order.spec_small_bits(),
            0 <= self.spec_net_bits() <= self.spec_used_bits(),
    {
        self.lemma_dims();
        let tb = self.spec_total_bits();
        let lb = self.fec_order.spec_large_bits();
        let sb = self.fec_order.spec_small_bits();
        let q = self.spec_fec_syms();
        lemma_fundamental_div_mod(tb, lb);
        assert(q >= 0) by {
            lemma_div_pos_is_pos(tb, lb);
        }
        assert(q * lb <= tb) by (nonlinear_arith)
            requires
                tb == lb * q + tb % lb,
                tb % lb >= 0;
        assert(0 <= q * sb <= q * lb) by (nonlinear_arith)
            requires
                0 <= sb <= lb,
                q >= 0;
    }

    /// Validate a configuration; `None` exactly when the parameters break
    /// the layout invariants (`cpitch` must exceed the cross size, at least
    /// one cross each way, a supported code order, and a canvas that keeps
    /// every pixel count within machine range).
    pub fn new(
        xcrosses: u64,
        ycrosses: u64,
        cpitch: u64,
        chalf: u64,
        fec_order: FecOrder,
        border: u64,
        text_height: u64,
    ) -> (r: Option<Settings>)
        ensures
            ({
                let c = (Settings {
                    border,
                    chalf,
                    cpitch,
                    text_width: 13,
                    text_height,
                    xcrosses,
                    ycrosses,
                    fec_order,
                });
                if c.wf() {
                    r == Some(c)
                } else {
                    r is None
                }
            }),
    {
        if chalf < 1 || chalf >= 0x4000 || cpitch > 0x7FFF || 2 * chalf >= cpitch {
            return None;
        }
        if xcrosses < 1 || xcrosses > 0xFFFF || ycrosses < 1 || ycrosses > 0x7FFF {
            return None;
        }
        if border > 0x3FFF || text_height > 0x3FFF {
            return None;
        }
        let order_ok = match fec_order {
            FecOrder::Golay => true,
            FecOrder::Hamming(x) => 2 <= x && x <= 6,
        };
        if !order_ok {
            return None;
        }
        proof {
            assert(0 <= cpitch * (xcrosses - 1) <= 0x7FFF * 0xFFFF) by (nonlinear_arith)
                requires 0 < cpitch <= 0x7FFF && 0 <= xcrosses - 1 <= 0xFFFF;
            assert(0 <= cpitch * (ycrosses - 1) <= 0x7FFF * 0x7FFF) by (nonlinear_arith)
                requires 0 < cpitch <= 0x7FFF && 0 <= ycrosses - 1 <= 0x7FFF;
        }
        let data_width = cpitch * (xcrosses - 1) + 2 * chalf;
        let data_height = cpitch * (ycrosses - 1) + 2 * chalf;
        if 2 * border + data_width > 0xFFFF {
            return None;
        }
        if 2 * border + data_height + text_height > 0x7FFF {
            return None;
        }
        Some(Settings {
            border,
            chalf,
            cpitch,
            text_width: 13,
            text_height,
            xcrosses,
            ycrosses,
            fec_order,
        })
    }

    pub fn fec_order(&self) -> (r: FecOrder)
        ensures
            r == self.fec_order,
    {
        self.fec_order
    }

    /// Width of the rectangle occupied by the data and the crosses.
    pub fn data_width(&self) -> (r: u64)
        requires
            self.wf(),
        ensures
            r == self.spec_data_width(),
    {
        proof { self.lemma_dims(); }
        self.cpitch * (self.xcrosses - 1) + 2 * self.chalf
    }

    /// Height of the rectangle occupied by the data and the crosses.
    pub fn data_height(&self) -> (r: u64)
        requires
            self.wf(),
        ensures
            r == self.spec_data_height(),
    {
        proof {
            self.lemma_dims();
            assert(0 <= self.cpitch * (self.ycrosses - 1)) by (nonlinear_arith)
                requires 0 < self.cpitch && 0 <= self.ycrosses - 1;
            assert(self.cpitch * (self.ycrosses - 1) + 2 * self.chalf
                == self.spec_data_height());
        }
        self.cpitch * (self.ycrosses - 1) + 2 * self.chalf
    }

    /// Canvas width, border included.
    pub fn width(&self) -> (r: u64)
        requires
            self.wf(),
        ensures
            r == self.spec_width(),
    {
        2 * self.border + self.data_width()
    }

    /// Canvas height, border and label strip included.
    pub fn height(&self) -> (r: u64)
        requires
            self.wf(),
        ensures
            r == self.spec_height(),
    {
        2 * self.border + self.data_height() + self.text_height
    }

    /// Height of the narrow strip, the one that runs between crosses.
    pub fn narrow_height(&self) -> (r: u64)
        requires
            self.wf(),
        ensures
            r == self.spec_narrow_height(),
    {
        2 * self.chalf
    }

    /// Width of one gap between two neighbouring crosses.
    pub fn gap_width(&self) -> (r: u64)
        requires
            self.wf(),
        ensures
            r == self.spec_gap_width(),
    {
        self.cpitch - 2 * self.chalf
    }

    /// Data pixels per row of the narrow strip.
    pub fn narrow_width(&self) -> (r: u64)
        requires
            self.wf(),
        ensures
            r == self.spec_narrow_width(),
    {
        proof { self.lemma_dims(); }
        self.gap_width() * (self.xcrosses - 1)
    }

    /// Data pixels in one narrow strip.
    pub fn narrow_pixels(&self) -> (r: u64)
        requires
            self.wf(),
        ensures
            r == self.spec_narrow_pixels(),
    {
        proof { self.lemma_dims(); }
        self.narrow_height() * self.narrow_width()
    }

    /// Height of the wide strip, the one clear of crosses.
    pub fn wide_height(&self) -> (r: u64)
        requires
            self.wf(),
        ensures
            r == self.spec_wide_height(),
    {
        self.gap_width()
    }

    /// Width of the wide strip: the full data rectangle.
    pub fn wide_width(&self) -> (r: u64)
        requires
            self.wf(),
        ensures
            r == self.spec_wide_width(),
    {
        self.width() - 2 * self.border
    }

    /// Data pixels in one wide strip.
    pub fn wide_pixels(&self) -> (r: u64)
        requires
            self.wf(),
        ensures
            r == self.spec_wide_pixels(),
    {
        proof { self.lemma_dims(); }
        self.wide_height() * self.wide_width()
    }

    /// Height of one narrow-plus-wide strip pair.
    pub fn rep_height(&self) -> (r: u64)
        requires
            self.wf(),
        ensures
            r == self.spec_rep_height(),
    {
        proof { self.lemma_dims(); }
        self.narrow_height() + self.wide_height()
    }

    /// Data pixels in one narrow-plus-wide strip pair.
    pub fn rep_pixels(&self) -> (r: u64)
        requires
            self.wf(),
        ensures
            r == self.spec_rep_pixels(),
    {
        proof { self.lemma_dims(); }
        self.narrow_pixels() + self.wide_pixels()
    }

    /// All data-carrying pixel slots on one page.
    pub fn total_bits(&self) -> (r: u64)
        requires
            self.wf(),
        ensures
            r == self.spec_total_bits(),
    {
        proof {
            self.lemma_dims();
            assert(0 <= self.spec_rep_pixels() * (self.ycrosses - 1)
                <= 0xFFFF_FFFF * 0x7FFF) by (nonlinear_arith)
                requires 0 <= self.spec_rep_pixels() <= 0xFFFF_FFFF
                    && 0 <= self.ycrosses - 1 <= 0x7FFF;
        }
        self.rep_pixels() * (self.ycrosses - 1) + self.narrow_pixels()
    }

    /// Whole code symbols that fit on one page.
    pub fn fec_syms(&self) -> (r: u64)
        requires
            self.wf(),
        ensures
            r == self.spec_fec_syms(),
    {
        proof { self.lemma_dims(); }
        self.total_bits() / self.fec_order.large_bits()
    }

    /// Net payload capacity of one page, in bits.
    pub fn net_bits(&self) -> (r: u64)
        requires
            self.wf(),
        ensures
            r == self.spec_net_bits(),
    {
        proof {
            self.lemma_dims();
            self.lemma_capacity();
        }
        self.fec_syms() * self.fec_order.small_bits()
    }

    /// Channel bits actually used by whole symbols on one page.
    pub fn used_bits(&self) -> (r: u64)
        requires
            self.wf(),
        ensures
            r == self.spec_used_bits(),
    {
        proof {
            self.lemma_dims();
            self.lemma_capacity();
        }
        self.fec_syms() * self.fec_order.large_bits()
    }

    /// Whether `(x, y)` (relative to the first cross's corner) lies under a
    /// cross of the fiducial grid.
    pub fn is_cross(&self, x: u64, y: u64) -> (r: bool)
        requires
            self.wf(),
        ensures
            r == self.spec_is_cross(x as int, y as int),
    {
        (x % self.cpitch) < (2 * self.chalf) && (y % self.cpitch) < (2 * self.chalf)
    }

    /// The coordinate carrying sequence index `seq`, relative to the
    /// upper-left corner of the first cross; `None` when `seq` is past the
    /// page's capacity.
    pub fn seq2xy(&self, seq: u64) -> (r: Option<(u64, u64)>)
        requires
            self.wf(),
        ensures
            seq < self.spec_total_bits() ==> (r matches Some(p)
                && (p.0 as int, p.1 as int) == self.spec_seq2xy(seq as int)
                && p.0 < self.spec_data_width() && p.1 < self.spec_data_height()
                && !self.spec_is_cross(p.0 as int, p.1 as int)),
            seq >= self.spec_total_bits() ==> r is None,
    {
        if seq >= self.total_bits() {
            return None;
        }
        proof {
            self.lemma_dims();
            self.lemma_seq2xy_in_range(seq as int);
        }
        let rep = seq / self.rep_pixels();
        proof {
            let rp = self.spec_rep_pixels();
            let tb = self.spec_total_bits();
            lemma_fundamental_div_mod(seq as int, rp);
            lemma_div_pos_is_pos(seq as int, rp);
            assert(rep <= self.ycrosses - 1) by (nonlinear_arith)
                requires
                    seq == rp * rep + (seq as int) % rp,
                    0 <= (seq as int) % rp,
                    seq < tb,
                    tb == rp * (self.ycrosses - 1) + self.spec_narrow_pixels(),
                    self.spec_narrow_pixels() <= rp,
                    rp > 0,
                    rep >= 0;
            assert(self.spec_rep_height() * rep == rep * self.spec_rep_height())
                by (nonlinear_arith);
            assert(0 <= rep * self.spec_rep_height()
                <= (self.ycrosses - 1) * self.spec_rep_height()) by (nonlinear_arith)
                requires 0 <= rep <= self.ycrosses - 1 && self.spec_rep_height() >= 0;
            assert(0 <= (self.ycrosses - 1) * self.spec_rep_height()
                <= 0x7FFF * 0x7FFF) by (nonlinear_arith)
                requires 0 <= self.ycrosses - 1 <= 0x7FFF
                    && 0 <= self.spec_rep_height() <= 0x7FFF;
        }
        let mut seq = seq % self.rep_pixels();
        let mut y = self.rep_height() * rep;
        if seq >= self.narrow_pixels() {
            // Wide strip of the pair.
            y = y + self.narrow_height();
            seq = seq - self.narrow_pixels();
            y = y + seq / self.wide_width();
            let x = seq % self.wide_width();
            Some((x, y))
        } else {
            // Narrow strip of the pair.
            let mut x = 2 * self.chalf;
            y = y + seq / self.narrow_width();
            seq = seq % self.narrow_width();
            let gap = seq / self.gap_width();
            proof {
                assert(gap * self.cpitch == self.cpitch * gap) by (nonlinear_arith);
            }
            x = x + gap * self.cpitch;
            seq = seq % self.gap_width();
            x = x + seq;
            Some((x, y))
        }
    }
}

impl Default for Settings {
    /// The stock page layout; Golay is the declared default code.
    fn default() -> (r: Settings)
        ensures
            r == (Settings {
                border: 2,
                chalf: 3,
                cpitch: 24,
                text_width: 13,
                text_height: 24,
                xcrosses: 67,
                ycrosses: 87,
                fec_order: FecOrder::Golay,
            }),
            r.wf(),
    {
        Settings {
            border: 2,
            chalf: 3,
            cpitch: 24,
            text_width: 13,
            text_height: 24,
            xcrosses: 67,
            ycrosses: 87,
            fec_order: FecOrder::Golay,
        }
    }
}

} // verus!
