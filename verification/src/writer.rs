//! The encoder: accumulates payload bits, expands whole symbols through the
//! Hamming codec, spreads the code bits across the page in bit-plane order,
//! and renders them into the current page's pixel buffer, rolling over to a
//! fresh page when the capacity is exhausted. Finished pages queue up for an
//! external persistence collaborator.

use vstd::prelude::*;
use crate::fec::{FecOrder, spec_hamming, hamming};
use crate::geometry::{Settings, lemma_divmod};

verus! {

use vstd::arithmetic::power2::{pow2, lemma2_to64};
use vstd::arithmetic::div_mod::{lemma_fundamental_div_mod, lemma_div_pos_is_pos};

/// Pixel value of a dark (ink) pixel.
pub const DARK: u8 = 0;

/// Pixel value of a light (paper) pixel.
pub const LIGHT: u8 = 255;

/// Pixels the border frame darkens: a frame of `border` thickness around
/// the canvas, stopping above the label strip at the bottom.
pub open spec fn spec_border_dark(s: Settings, x: int, y: int) -> bool {
    y < s.spec_height() - s.text_height && (x < s.border || x >= s.spec_width() - s.border
        || y < s.border || y >= s.spec_height() - s.text_height - s.border)
}

/// Whether canvas pixel `(x, y)` lies under a cross of the fiducial grid.
pub open spec fn spec_in_cross(s: Settings, x: int, y: int) -> bool {
    &&& s.border <= x < s.border + s.spec_data_width()
    &&& s.border <= y < s.border + s.spec_data_height()
    &&& s.spec_is_cross(x - s.border, y - s.border)
}

/// The diagonal checkerboard of one cross: dark in the upper-left and
/// lower-right quadrants, light in the other two. `dx`, `dy` are offsets
/// into the cross's `2 * chalf` box.
pub open spec fn spec_cross_pattern(s: Settings, dx: int, dy: int) -> u8 {
    if (dx < s.chalf) == (dy < s.chalf) {
        DARK
    } else {
        LIGHT
    }
}

/// The fiducial pixel at canvas coordinate `(x, y)` of a cross region.
pub open spec fn spec_cross_value(s: Settings, x: int, y: int) -> u8 {
    spec_cross_pattern(s, (x - s.border) % (s.cpitch as int), (y - s.border) % (s.cpitch as int))
}

/// One pixel of a freshly formatted page: fiducials over the border frame
/// over light paper.
pub open spec fn spec_background_pixel(s: Settings, x: int, y: int) -> u8 {
    if spec_in_cross(s, x, y) {
        spec_cross_value(s, x, y)
    } else if spec_border_dark(s, x, y) {
        DARK
    } else {
        LIGHT
    }
}

/// A freshly formatted page, as a row-major pixel sequence.
pub open spec fn spec_page_background(s: Settings) -> Seq<u8> {
    Seq::new((s.spec_width() * s.spec_height()) as nat,
        |i: int| spec_background_pixel(s, i % s.spec_width(), i / s.spec_width()))
}

/// The encoder state: the current page's pixels, the accumulator register
/// with its marker bit, the symbol index within the page, the page counter,
/// and the finished pages awaiting persistence.
pub struct OptarWriter {
    /// Current page, row-major, `width * height` pixels.
    pub buffer: Vec<u8>,
    pub settings: Settings,
    /// Accumulator: a leading marker 1-bit, then the payload bits collected
    /// so far toward the current symbol.
    pub accu: u64,
    /// Index of the next symbol within the current page.
    pub hamming_symbol: u64,
    /// Base name the persistence collaborator derives page names from.
    pub base_filename: String,
    /// Number of the current page, starting at 1.
    pub file_number: u16,
    /// Completed pages, in order, handed out for persistence.
    pub finished: Vec<Vec<u8>>,
}

impl OptarWriter {
    /// The encoder's invariant: a usable configuration, a full-size pixel
    /// buffer, the marker bit still below the symbol boundary, the symbol
    /// index within the page's capacity, and the page counter in step with
    /// the finished pages.
    pub open spec fn wf(self) -> bool {
        &&& self.settings.wf()
        &&& self.buffer@.len() == self.settings.spec_width() * self.settings.spec_height()
        &&& 1 <= self.accu
        &&& (self.accu as int) < pow2(self.settings.fec_order.spec_small_bits() as nat)
        &&& 1 <= self.settings.spec_fec_syms()
        &&& 0 <= self.hamming_symbol <= self.settings.spec_fec_syms()
        &&& 1 <= self.file_number <= 9999
        &&& self.finished@.len() == self.file_number - 1
    }

    /// Redraws the current page as a blank formatted page: light paper,
    /// the border frame, the full fiducial grid.
    #[verifier::loop_isolation(false)]
    pub fn reformat_buffer(&mut self)
        requires
            old(self).settings.wf(),
        ensures
            final(self).buffer@ == spec_page_background(old(self).settings),
            final(self).settings == old(self).settings,
            final(self).accu == old(self).accu,
            final(self).hamming_symbol == old(self).hamming_symbol,
            final(self).base_filename == old(self).base_filename,
            final(self).file_number == old(self).file_number,
            final(self).finished == old(self).finished,
    {
        let ghost s = self.settings;
        proof {
            self.settings.lemma_dims();
            assert(0 <= s.spec_width() * s.spec_height() <= 0xFFFF * 0x7FFF)
                by (nonlinear_arith)
                requires 0 <= s.spec_width() <= 0xFFFF && 0 <= s.spec_height() <= 0x7FFF;
        }
        let w = self.settings.width();
        let h = self.settings.height();
        let n = w * h;
        let mut buf: Vec<u8> = Vec::new();
        let mut i: u64 = 0;
        while i < n
            invariant
                i <= n,
                buf@.len() == i,
                forall|j: int| 0 <= j < i ==> buf@[j] == LIGHT,
            decreases n - i,
        {
            buf.push(LIGHT);
            i = i + 1;
        }
        self.buffer = buf;
        self.border();
        self.crosses();
        proof {
            assert forall|i: int| 0 <= i < self.buffer@.len() implies
                self.buffer@[i] == spec_page_background(s)[i] by {
                lemma_fundamental_div_mod(i, s.spec_width());
            }
            assert(self.buffer@ =~= spec_page_background(s));
        }
    }

    /// Darkens the border frame: every pixel within `border` of the canvas
    /// edge, the label strip at the bottom exempted.
    #[verifier::loop_isolation(false)]
    pub fn border(&mut self)
        requires
            old(self).settings.wf(),
            old(self).buffer@.len()
                == old(self).settings.spec_width() * old(self).settings.spec_height(),
        ensures
            final(self).buffer@.len() == old(self).buffer@.len(),
            forall|i: int| 0 <= i < old(self).buffer@.len() ==> final(self).buffer@[i]
                == (if spec_border_dark(old(self).settings,
                        i % old(self).settings.spec_width(),
                        i / old(self).settings.spec_width()) {
                    DARK
                } else {
                    old(self).buffer@[i]
                }),
            final(self).settings == old(self).settings,
            final(self).accu == old(self).accu,
            final(self).hamming_symbol == old(self).hamming_symbol,
            final(self).base_filename == old(self).base_filename,
            final(self).file_number == old(self).file_number,
            final(self).finished == old(self).finished,
    {
        let ghost s = self.settings;
        let ghost buf0 = self.buffer@;
        proof {
            self.settings.lemma_dims();
            assert(0 <= s.spec_width() * s.spec_height() <= 0xFFFF * 0x7FFF)
                by (nonlinear_arith)
                requires 0 <= s.spec_width() <= 0xFFFF && 0 <= s.spec_height() <= 0x7FFF;
        }
        let w = self.settings.width();
        let h = self.settings.height();
        let n = w * h;
        let mut p: u64 = 0;
        while p < n
            invariant
                p <= n,
                self.settings == s,
                self.accu == old(self).accu,
                self.hamming_symbol == old(self).hamming_symbol,
                self.base_filename == old(self).base_filename,
                self.file_number == old(self).file_number,
                self.finished == old(self).finished,
                self.buffer@.len() == n,
                forall|i: int| 0 <= i < p ==> self.buffer@[i]
                    == (if spec_border_dark(s, i % s.spec_width(), i / s.spec_width()) {
                        DARK
                    } else {
                        buf0[i]
                    }),
                forall|i: int| p <= i < n ==> self.buffer@[i] == buf0[i],
            decreases n - p,
        {
            let x = p % w;
            let y = p / w;
            proof {
                lemma_fundamental_div_mod(p as int, w as int);
                assert(y < h) by (nonlinear_arith)
                    requires
                        p == w * y + x,
                        0 <= x,
                        p < w * h,
                        w > 0,
                        y >= 0;
            }
            if y + self.settings.text_height < h
                && (x < self.settings.border || x + self.settings.border >= w
                    || y < self.settings.border
                    || y + self.settings.border + self.settings.text_height >= h) {
                self.buffer[p as usize] = DARK;
            }
            p = p + 1;
        }
    }

    /// Draws one fiducial whose box's upper-left pixel is at canvas
    /// coordinate `(x, y)`: four `chalf`-sized quadrants in diagonal
    /// checkerboard polarity.
    #[verifier::loop_isolation(false)]
    pub fn cross(&mut self, x: u64, y: u64)
        requires
            old(self).settings.wf(),
            old(self).buffer@.len()
                == old(self).settings.spec_width() * old(self).settings.spec_height(),
            x + 2 * old(self).settings.chalf <= old(self).settings.spec_width(),
            y + 2 * old(self).settings.chalf <= old(self).settings.spec_height(),
        ensures
            final(self).buffer@.len() == old(self).buffer@.len(),
            forall|i: int| 0 <= i < old(self).buffer@.len() ==> final(self).buffer@[i]
                == (if x <= i % old(self).settings.spec_width() < x + 2 * old(self).settings.chalf
                        && y <= i / old(self).settings.spec_width()
                            < y + 2 * old(self).settings.chalf {
                    spec_cross_pattern(old(self).settings,
                        i % old(self).settings.spec_width() - x,
                        i / old(self).settings.spec_width() - y)
                } else {
                    old(self).buffer@[i]
                }),
            final(self).settings == old(self).settings,
            final(self).accu == old(self).accu,
            final(self).hamming_symbol == old(self).hamming_symbol,
            final(self).base_filename == old(self).base_filename,
            final(self).file_number == old(self).file_number,
            final(self).finished == old(self).finished,
    {
        let ghost s = self.settings;
        let ghost buf0 = self.buffer@;
        let ghost n = self.buffer@.len() as int;
        proof {
            self.settings.lemma_dims();
            assert(0 <= s.spec_width() * s.spec_height() <= 0xFFFF * 0x7FFF)
                by (nonlinear_arith)
                requires 0 <= s.spec_width() <= 0xFFFF && 0 <= s.spec_height() <= 0x7FFF;
        }
        let w = self.settings.width();
        let c = self.settings.chalf;
        let mut dj: u64 = 0;
        while dj < 2 * c
            invariant
                dj <= 2 * c,
                self.settings == s,
                self.accu == old(self).accu,
                self.hamming_symbol == old(self).hamming_symbol,
                self.base_filename == old(self).base_filename,
                self.file_number == old(self).file_number,
                self.finished == old(self).finished,
                self.buffer@.len() == n,
                forall|i: int| 0 <= i < n ==> self.buffer@[i]
                    == (if x <= i % s.spec_width() < x + 2 * s.chalf
                            && y <= i / s.spec_width() < y + dj {
                        spec_cross_pattern(s, i % s.spec_width() - x, i / s.spec_width() - y)
                    } else {
                        buf0[i]
                    }),
            decreases 2 * c - dj,
        {
            let mut di: u64 = 0;
            while di < 2 * c
                invariant
                    di <= 2 * c,
                    dj < 2 * c,
                    self.settings == s,
                    self.accu == old(self).accu,
                    self.hamming_symbol == old(self).hamming_symbol,
                    self.base_filename == old(self).base_filename,
                    self.file_number == old(self).file_number,
                    self.finished == old(self).finished,
                    self.buffer@.len() == n,
                    forall|i: int| 0 <= i < n ==> self.buffer@[i]
                        == (if x <= i % s.spec_width() < x + 2 * s.chalf
                                && (y <= i / s.spec_width() < y + dj
                                    || (i / s.spec_width() == y + dj
                                        && x <= i % s.spec_width() < x + di)) {
                            spec_cross_pattern(s, i % s.spec_width() - x, i / s.spec_width() - y)
                        } else {
                            buf0[i]
                        }),
                decreases 2 * c - di,
            {
                let px = x + di;
                let py = y + dj;
                let v = if (di < c) == (dj < c) {
                    DARK
                } else {
                    LIGHT
                };
                proof {
                    assert(0 <= py * s.spec_width() && py * s.spec_width() + s.spec_width()
                        <= s.spec_height() * s.spec_width()) by (nonlinear_arith)
                        requires 0 <= py && py + 1 <= s.spec_height() && 0 <= s.spec_width();
                    assert(s.spec_height() * s.spec_width()
                        == s.spec_width() * s.spec_height()) by (nonlinear_arith);
                }
                let idx = py * w + px;
                proof {
                    lemma_divmod(idx as int, s.spec_width(), py as int, px as int);
                }
                let ghost bufprev = self.buffer@;
                self.buffer[idx as usize] = v;
                proof {
                    assert forall|i: int| 0 <= i < n implies self.buffer@[i]
                        == (if x <= i % s.spec_width() < x + 2 * s.chalf
                                && (y <= i / s.spec_width() < y + dj
                                    || (i / s.spec_width() == y + dj
                                        && x <= i % s.spec_width() < x + di + 1)) {
                            spec_cross_pattern(s, i % s.spec_width() - x, i / s.spec_width() - y)
                        } else {
                            buf0[i]
                        }) by {
                        lemma_fundamental_div_mod(i, s.spec_width());
                        assert(s.spec_width() * (py as int) == (py as int) * s.spec_width())
                            by (nonlinear_arith);
                        assert(bufprev[i]
                            == (if x <= i % s.spec_width() < x + 2 * s.chalf
                                    && (y <= i / s.spec_width() < y + dj
                                        || (i / s.spec_width() == y + dj
                                            && x <= i % s.spec_width() < x + di)) {
                                spec_cross_pattern(s, i % s.spec_width() - x,
                                    i / s.spec_width() - y)
                            } else {
                                buf0[i]
                            }));
                        if i == idx {
                            assert(i % s.spec_width() == px && i / s.spec_width() == py);
                            assert(self.buffer@[i] == v);
                        } else {
                            assert(self.buffer@[i] == bufprev[i]);
                            assert(!(i / s.spec_width() == py && i % s.spec_width() == px));
                        }
                    }
                }
                di = di + 1;
            }
            dj = dj + 1;
        }
    }

    /// Renders the fiducial grid: one cross at every grid position.
    #[verifier::loop_isolation(false)]
    pub fn crosses(&mut self)
        requires
            old(self).settings.wf(),
            old(self).buffer@.len()
                == old(self).settings.spec_width() * old(self).settings.spec_height(),
        ensures
            final(self).buffer@.len() == old(self).buffer@.len(),
            forall|i: int| 0 <= i < old(self).buffer@.len() ==> final(self).buffer@[i]
                == (if spec_in_cross(old(self).settings,
                        i % old(self).settings.spec_width(),
                        i / old(self).settings.spec_width()) {
                    spec_cross_value(old(self).settings,
                        i % old(self).settings.spec_width(),
                        i / old(self).settings.spec_width())
                } else {
                    old(self).buffer@[i]
                }),
            final(self).settings == old(self).settings,
            final(self).accu == old(self).accu,
            final(self).hamming_symbol == old(self).hamming_symbol,
            final(self).base_filename == old(self).base_filename,
            final(self).file_number == old(self).file_number,
            final(self).finished == old(self).finished,
    {
        let ghost s = self.settings;
        let ghost buf0 = self.buffer@;
        let ghost n = self.buffer@.len() as int;
        let ghost wd = s.spec_width();
        let ghost cp = s.cpitch as int;
        let ghost b = s.border as int;
        let ghost c2 = 2 * s.chalf as int;
        proof {
            self.settings.lemma_dims();
        }
        let w = self.settings.width();
        let mut l: u64 = 0;
        while l < self.settings.ycrosses
            invariant
                l <= s.ycrosses,
                self.settings == s,
                self.accu == old(self).accu,
                self.hamming_symbol == old(self).hamming_symbol,
                self.base_filename == old(self).base_filename,
                self.file_number == old(self).file_number,
                self.finished == old(self).finished,
                self.buffer@.len() == n,
                forall|i: int| 0 <= i < n ==> self.buffer@[i]
                    == (if spec_in_cross(s, i % wd, i / wd)
                            && (i / wd - b) / cp < l {
                        spec_cross_value(s, i % wd, i / wd)
                    } else {
                        buf0[i]
                    }),
            decreases s.ycrosses - l,
        {
            let mut k: u64 = 0;
            let ghost bufl = self.buffer@;
            while k < self.settings.xcrosses
                invariant
                    k <= s.xcrosses,
                    l < s.ycrosses,
                    self.settings == s,
                    self.accu == old(self).accu,
                    self.hamming_symbol == old(self).hamming_symbol,
                    self.base_filename == old(self).base_filename,
                    self.file_number == old(self).file_number,
                    self.finished == old(self).finished,
                    self.buffer@.len() == n,
                    forall|i: int| 0 <= i < n ==> self.buffer@[i]
                        == (if spec_in_cross(s, i % wd, i / wd)
                                && ((i / wd - b) / cp < l
                                    || ((i / wd - b) / cp == l && (i % wd - b) / cp < k)) {
                            spec_cross_value(s, i % wd, i / wd)
                        } else {
                            buf0[i]
                        }),
                decreases s.xcrosses - k,
            {
                proof {
                    assert(0 <= k * cp && k * cp + cp <= s.xcrosses * cp) by (nonlinear_arith)
                        requires 0 <= k && k + 1 <= s.xcrosses && 0 <= cp;
                    assert(s.xcrosses * cp == cp * s.xcrosses) by (nonlinear_arith);
                    assert(cp * s.xcrosses == cp * (s.xcrosses - 1) + cp) by (nonlinear_arith);
                    assert(0 <= l * cp && l * cp + cp <= s.ycrosses * cp) by (nonlinear_arith)
                        requires 0 <= l && l + 1 <= s.ycrosses && 0 <= cp;
                    assert(s.ycrosses * cp == cp * s.ycrosses) by (nonlinear_arith);
                    assert(cp * s.ycrosses == cp * (s.ycrosses - 1) + cp) by (nonlinear_arith);
                }
                let cx = self.settings.border + k * self.settings.cpitch;
                let cy = self.settings.border + l * self.settings.cpitch;
                let ghost bufk = self.buffer@;
                self.cross(cx, cy);
                proof {
                    assert forall|i: int| 0 <= i < n implies self.buffer@[i]
                        == (if spec_in_cross(s, i % wd, i / wd)
                                && ((i / wd - b) / cp < l
                                    || ((i / wd - b) / cp == l && (i % wd - b) / cp < k + 1)) {
                            spec_cross_value(s, i % wd, i / wd)
                        } else {
                            buf0[i]
                        }) by {
                        let u = i % wd;
                        let v = i / wd;
                        assert(cp * (k as int) == k as int * cp) by (nonlinear_arith);
                        assert(cp * (l as int) == l as int * cp) by (nonlinear_arith);
                        if cx <= u < cx + c2 && cy <= v < cy + c2 {
                            // the cross just drawn
                            lemma_divmod(u - b, cp, k as int, u - b - k as int * cp);
                            lemma_divmod(v - b, cp, l as int, v - b - l as int * cp);
                        } else {
                            if spec_in_cross(s, u, v) && (v - b) / cp == l
                                && (u - b) / cp == k {
                                // decomposing shows it would be inside the box
                                lemma_fundamental_div_mod(u - b, cp);
                                lemma_fundamental_div_mod(v - b, cp);
                            }
                        }
                    }
                }
                k = k + 1;
            }
            proof {
                assert forall|i: int| 0 <= i < n implies self.buffer@[i]
                    == (if spec_in_cross(s, i % wd, i / wd)
                            && (i / wd - b) / cp < l + 1 {
                        spec_cross_value(s, i % wd, i / wd)
                    } else {
                        buf0[i]
                    }) by {
                    let u = i % wd;
                    let v = i / wd;
                    if spec_in_cross(s, u, v) {
                        lemma_fundamental_div_mod(u - b, cp);
                        assert((u - b) / cp < s.xcrosses) by (nonlinear_arith)
                            requires
                                u - b == cp * ((u - b) / cp) + (u - b) % cp,
                                0 <= (u - b) % cp,
                                u - b < cp * (s.xcrosses - 1) + c2,
                                c2 <= cp,
                                cp > 0,
                                (u - b) / cp >= 0;
                        lemma_div_pos_is_pos(u - b, cp);
                    }
                }
            }
            l = l + 1;
        }
        proof {
            assert forall|i: int| 0 <= i < n implies self.buffer@[i]
                == (if spec_in_cross(s, i % wd, i / wd) {
                    spec_cross_value(s, i % wd, i / wd)
                } else {
                    buf0[i]
                }) by {
                let u = i % wd;
                let v = i / wd;
                if spec_in_cross(s, u, v) {
                    lemma_fundamental_div_mod(v - b, cp);
                    assert((v - b) / cp < s.ycrosses) by (nonlinear_arith)
                        requires
                            v - b == cp * ((v - b) / cp) + (v - b) % cp,
                            0 <= (v - b) % cp,
                            v - b < cp * (s.ycrosses - 1) + c2,
                            c2 <= cp,
                            cp > 0,
                            (v - b) / cp >= 0;
                    lemma_div_pos_is_pos(v - b, cp);
                }
            }
        }
    }
}


/// Encoding failures: the Golay code is declared but not implemented.
#[derive(Copy, Clone, Debug, PartialEq, Eq, Structural)]
pub enum EncodeError {
    /// The configured code has no codeword construction yet.
    Unimplemented,
}

/// The abstract encoder state that the packer's contracts are written over.
pub ghost struct EncState {
    pub accu: u64,
    pub sym: int,
    pub page: int,
    pub buf: Seq<u8>,
    pub finished: Seq<Seq<u8>>,
}

/// The buffer after writing the channel bit of sequence index `seq`:
/// bit 1 is dark ink, bit 0 light paper, at the coordinate `seq2xy` gives,
/// offset by the border.
pub open spec fn spec_write_bit(s: Settings, buf: Seq<u8>, seq: int, bit: bool) -> Seq<u8> {
    let (x, y) = s.spec_seq2xy(seq);
    buf.update((y + s.border) * s.spec_width() + (x + s.border), if bit { DARK } else { LIGHT })
}

/// The buffer after rendering code bits `p` and up of the codeword `code`
/// for symbol `sym`: bit `p` (0 is the most significant of `large` bits)
/// goes to sequence index `sym + p * fec_syms` - bit-plane interleaving.
pub open spec fn spec_write_symbol_from(
    s: Settings,
    buf: Seq<u8>,
    sym: int,
    code: u64,
    p: int,
    large: int,
) -> Seq<u8>
    decreases large - p,
{
    if p < 0 || p >= large {
        buf
    } else {
        spec_write_symbol_from(s,
            spec_write_bit(s, buf, sym + p * s.spec_fec_syms(),
                (code >> ((large - 1 - p) as u64)) & 1 == 1),
            sym, code, p + 1, large)
    }
}

/// The buffer after rendering the whole codeword `code` of symbol `sym`.
pub open spec fn spec_write_symbol(s: Settings, buf: Seq<u8>, sym: int, code: u64) -> Seq<u8> {
    spec_write_symbol_from(s, buf, sym, code, 0, s.fec_order.spec_large_bits())
}

/// One payload bit pushed through the encoder: shift it into the
/// accumulator; when the marker bit reaches the symbol boundary, encode the
/// symbol (Golay fails), roll the page over first if it is full, render the
/// codeword bit-plane-interleaved, and reset the accumulator.
pub open spec fn spec_step_bit(s: Settings, v: EncState, bit: bool) -> (EncState, bool) {
    let raw = (v.accu << 1u64) | (if bit { 1u64 } else { 0u64 });
    if (raw as int) < pow2(s.fec_order.spec_small_bits() as nat) {
        (EncState { accu: raw, ..v }, true)
    } else {
        match s.fec_order {
            FecOrder::Golay => (EncState { accu: raw, ..v }, false),
            FecOrder::Hamming(o) => {
                let code = spec_hamming(raw, o);
                if v.sym >= s.spec_fec_syms() {
                    (EncState {
                        accu: 1,
                        sym: 1,
                        page: v.page + 1,
                        finished: v.finished.push(v.buf),
                        buf: spec_write_symbol(s, spec_page_background(s), 0, code),
                    }, true)
                } else {
                    (EncState {
                        accu: 1,
                        sym: v.sym + 1,
                        buf: spec_write_symbol(s, v.buf, v.sym, code),
                        ..v
                    }, true)
                }
            },
        }
    }
}

/// A run of payload bits, stopping at the first encoding failure.
pub open spec fn spec_run_bits(s: Settings, v: EncState, bits: Seq<bool>) -> (EncState, bool)
    decreases bits.len(),
{
    if bits.len() == 0 {
        (v, true)
    } else {
        let (v1, ok) = spec_step_bit(s, v, bits[0]);
        if !ok {
            (v1, false)
        } else {
            spec_run_bits(s, v1, bits.drop_first())
        }
    }
}

/// A byte's bits, most significant first.
pub open spec fn spec_byte_bits(c: u8) -> Seq<bool> {
    Seq::new(8, |i: int| (c >> ((7 - i) as u8)) & 1 == 1)
}

/// A run of payload bytes, stopping at the first encoding failure.
pub open spec fn spec_run_bytes(s: Settings, v: EncState, bytes: Seq<u8>) -> (EncState, bool)
    decreases bytes.len(),
{
    if bytes.len() == 0 {
        (v, true)
    } else {
        let (v1, ok) = spec_run_bits(s, v, spec_byte_bits(bytes[0]));
        if !ok {
            (v1, false)
        } else {
            spec_run_bytes(s, v1, bytes.drop_first())
        }
    }
}

/// `n` zero flush bits.
pub open spec fn spec_pad_bits(n: int) -> Seq<bool> {
    Seq::new(if n >= 0 { n as nat } else { 0 }, |i: int| false)
}

/// A whole feeding run: every byte, then `small_bits - 1` zero flush bits,
/// then the last in-progress page joins the finished pages.
pub open spec fn spec_feed(s: Settings, v: EncState, bytes: Seq<u8>) -> (EncState, bool) {
    let (v1, ok) = spec_run_bytes(s, v, bytes);
    if !ok {
        (v1, false)
    } else {
        let (v2, ok2) = spec_run_bits(s, v1, spec_pad_bits(s.fec_order.spec_small_bits() - 1));
        if !ok2 {
            (v2, false)
        } else {
            (EncState { finished: v2.finished.push(v2.buf), ..v2 }, true)
        }
    }
}

/// The page counter never moves backwards along a run.
pub proof fn lemma_run_bits_page(s: Settings, v: EncState, bits: Seq<bool>)
    ensures
        spec_run_bits(s, v, bits).0.page >= v.page,
    decreases bits.len(),
{
    if bits.len() > 0 {
        let (v1, ok) = spec_step_bit(s, v, bits[0]);
        if ok {
            lemma_run_bits_page(s, v1, bits.drop_first());
        }
    }
}

/// The page counter never moves backwards along a run of bytes.
pub proof fn lemma_run_bytes_page(s: Settings, v: EncState, bytes: Seq<u8>)
    ensures
        spec_run_bytes(s, v, bytes).0.page >= v.page,
    decreases bytes.len(),
{
    if bytes.len() > 0 {
        let (v1, ok) = spec_run_bits(s, v, spec_byte_bits(bytes[0]));
        lemma_run_bits_page(s, v, spec_byte_bits(bytes[0]));
        if ok {
            lemma_run_bytes_page(s, v1, bytes.drop_first());
        }
    }
}

impl OptarWriter {
    /// The abstract state of this encoder.
    pub open spec fn view_state(self) -> EncState {
        EncState {
            accu: self.accu,
            sym: self.hamming_symbol as int,
            page: self.file_number as int,
            buf: self.buffer@,
            finished: self.finished@.map_values(|v: Vec<u8>| v@),
        }
    }

    /// A fresh encoder: page 1 formatted and blank, the accumulator seeded
    /// with the marker bit, no symbols and no finished pages yet.
    pub fn new(settings: Settings, base_filename: Option<String>) -> (r: OptarWriter)
        requires
            settings.wf(),
            settings.spec_fec_syms() >= 1,
        ensures
            r.wf(),
            r.settings == settings,
            r.accu == 1,
            r.hamming_symbol == 0,
            r.file_number == 1,
            r.finished@.len() == 0,
            r.buffer@ == spec_page_background(settings),
    {
        proof {
            settings.lemma_dims();
            lemma2_to64();
            match settings.fec_order {
                FecOrder::Golay => {},
                FecOrder::Hamming(x) => {
                    assert(pow2(x as nat) >= x + 2);
                },
            }
            vstd::arithmetic::power2::lemma_pow2_strictly_increases(0,
                settings.fec_order.spec_small_bits() as nat);
        }
        let base = match base_filename {
            Some(b) => b,
            None => "optar_out".to_owned(),
        };
        let mut w = OptarWriter {
            buffer: Vec::new(),
            settings,
            accu: 1,
            hamming_symbol: 0,
            base_filename: base,
            file_number: 1,
            finished: Vec::new(),
        };
        w.reformat_buffer();
        w
    }

    pub fn base_filename(&self) -> (r: &String)
        ensures
            r == &self.base_filename,
    {
        &self.base_filename
    }

    /// Commits the completed page to the finished queue, advances the page
    /// counter (which must stay below its hard cap), and formats a fresh
    /// blank page.
    pub fn new_file(&mut self)
        requires
            old(self).settings.wf(),
            old(self).file_number < 9999,
            1 <= old(self).file_number,
        ensures
            final(self).finished@.map_values(|v: Vec<u8>| v@)
                == old(self).finished@.map_values(|v: Vec<u8>| v@).push(old(self).buffer@),
            final(self).finished@.len() == old(self).finished@.len() + 1,
            final(self).file_number == old(self).file_number + 1,
            final(self).buffer@ == spec_page_background(old(self).settings),
            final(self).settings == old(self).settings,
            final(self).accu == old(self).accu,
            final(self).hamming_symbol == old(self).hamming_symbol,
            final(self).base_filename == old(self).base_filename,
    {
        if self.file_number > 0 {
            let page = self.buffer.clone();
            proof {
                assert(page@ =~= old(self).buffer@);
            }
            self.finished.push(page);
        }
        self.file_number = self.file_number + 1;
        self.reformat_buffer();
        proof {
            assert(self.finished@.map_values(|v: Vec<u8>| v@)
                =~= old(self).finished@.map_values(|v: Vec<u8>| v@).push(old(self).buffer@));
        }
    }

    /// Writes one already-encoded channel bit: only the lowest bit of `bit`
    /// is significant; 1 renders dark, 0 light, at the coordinate that
    /// `seq2xy` assigns to `seq`, offset by the border. The sequence index
    /// must be in range.
    pub fn write_channelbit(&mut self, bit: u8, seq: u64)
        requires
            old(self).settings.wf(),
            old(self).buffer@.len()
                == old(self).settings.spec_width() * old(self).settings.spec_height(),
            seq < old(self).settings.spec_total_bits(),
        ensures
            final(self).buffer@ == spec_write_bit(old(self).settings, old(self).buffer@,
                seq as int, bit & 1 == 1),
            final(self).buffer@.len() == old(self).buffer@.len(),
            final(self).settings == old(self).settings,
            final(self).accu == old(self).accu,
            final(self).hamming_symbol == old(self).hamming_symbol,
            final(self).base_filename == old(self).base_filename,
            final(self).file_number == old(self).file_number,
            final(self).finished == old(self).finished,
    {
        let ghost s = self.settings;
        let bit = bit & 1;
        proof {
            self.settings.lemma_dims();
            self.settings.lemma_seq2xy_in_range(seq as int);
        }
        match self.settings.seq2xy(seq) {
            Some((x, y)) => {
                let w = self.settings.width();
                let py = y + self.settings.border;
                let px = x + self.settings.border;
                proof {
                    assert(0 <= py * s.spec_width() && py * s.spec_width() + s.spec_width()
                        <= s.spec_height() * s.spec_width()) by (nonlinear_arith)
                        requires 0 <= py && py + 1 <= s.spec_height() && 0 <= s.spec_width();
                    assert(s.spec_height() * s.spec_width()
                        == s.spec_width() * s.spec_height()) by (nonlinear_arith);
                    assert(0 <= s.spec_width() * s.spec_height() <= 0xFFFF * 0x7FFF)
                        by (nonlinear_arith)
                        requires 0 <= s.spec_width() <= 0xFFFF && 0 <= s.spec_height() <= 0x7FFF;
                }
                let idx = py * w + px;
                self.buffer[idx as usize] = if bit == 1 {
                    DARK
                } else {
                    LIGHT
                };
            },
            None => {
                proof {
                    assert(false);
                }
            },
        }
    }
}



impl OptarWriter {
    /// Pushes one payload bit into the accumulator; when the marker bit
    /// reaches the symbol boundary, encodes and renders the completed symbol,
    /// rolling the page over first if it is full. Only the lowest bit of
    /// `bit` is significant. Fails exactly when a symbol completes under the
    /// unimplemented Golay order.
    #[verifier::loop_isolation(false)]
    pub fn write_payloadbit(&mut self, bit: u8) -> (r: Result<(), EncodeError>)
        requires
            old(self).wf(),
            spec_step_bit(old(self).settings, old(self).view_state(), bit & 1 == 1).0.page
                <= 9999,
        ensures
            ({
                let (v2, ok) = spec_step_bit(old(self).settings, old(self).view_state(),
                    bit & 1 == 1);
                &&& final(self).view_state() == v2
                &&& (r is Ok <==> ok)
                &&& (r is Err ==> r == Err::<(), EncodeError>(EncodeError::Unimplemented))
                &&& (ok ==> final(self).wf())
            }),
            final(self).settings == old(self).settings,
            final(self).base_filename == old(self).base_filename,
    {
        let ghost s = self.settings;
        let ghost v0 = self.view_state();
        let small = self.settings.fec_order.small_bits();
        proof {
            lemma2_to64();
            match s.fec_order {
                FecOrder::Golay => {},
                FecOrder::Hamming(x) => {
                    if x < 6 {
                        vstd::arithmetic::power2::lemma_pow2_strictly_increases(x as nat, 6);
                    }
                },
            }
            assert(1 <= small <= 57);
            vstd::bits::lemma_u64_pow2_no_overflow(small as nat);
            vstd::bits::lemma_u64_shl_is_mul(1u64, small);
            let olda = self.accu;
            let bb = (bit & 1) as u64;
            assert(bit & 1 == 0 || bit & 1 == 1) by (bit_vector);
            assert(olda < (1u64 << small) && bb <= 1 && small < 63
                ==> ((olda << 1) | bb) < 2 * (1u64 << small)
                    && ((olda << 1) | bb) == 2 * olda + bb) by (bit_vector);
        }
        self.accu = self.accu << 1;
        self.accu = self.accu | ((bit & 1) as u64);
        let ghost raw = self.accu;
        proof {
            let a = self.accu;
            assert((a & (1u64 << small) != 0) == (a >= (1u64 << small))) by (bit_vector)
                requires small < 63u64 && a < 2 * (1u64 << small);
        }
        if self.accu & (1u64 << small) != 0 {
            let order = match self.settings.fec_order {
                FecOrder::Golay => {
                    return Err(EncodeError::Unimplemented);
                },
                FecOrder::Hamming(x) => x,
            };
            self.accu = hamming(self.accu, order);
            let ghost code = self.accu;
            let fs = self.settings.fec_syms();
            proof {
                s.lemma_dims();
                s.lemma_capacity();
            }
            if self.hamming_symbol >= fs {
                self.new_file();
                self.hamming_symbol = 0;
            }
            let large = self.settings.fec_order.large_bits();
            let ghost buf_start = self.buffer@;
            let ghost sym = self.hamming_symbol as int;
            let ghost fin0 = self.finished@;
            let ghost page0 = self.file_number;
            let mut p: u64 = 0;
            while p < large
                invariant
                    p <= large,
                    large == s.fec_order.spec_large_bits(),
                    fs == s.spec_fec_syms(),
                    1 <= fs,
                    self.accu == code,
                    self.settings == s,
                    s.wf(),
                    self.hamming_symbol == sym,
                    0 <= sym < fs,
                    self.base_filename == old(self).base_filename,
                    self.file_number == page0,
                    self.finished@ == fin0,
                    self.buffer@.len() == s.spec_width() * s.spec_height(),
                    spec_write_symbol_from(s, self.buffer@, sym, code, p as int, large as int)
                        == spec_write_symbol_from(s, buf_start, sym, code, 0, large as int),
                decreases large - p,
            {
                let shift = large - 1 - p;
                let b = #[verifier::truncate] ((self.accu >> shift) as u8);
                proof {
                    assert(0 <= p * fs && sym + p * fs <= (large - 1) * fs + fs - 1)
                        by (nonlinear_arith)
                        requires 0 <= p <= large - 1 && 0 <= sym <= fs - 1 && 1 <= fs;
                    assert((large - 1) * fs + fs == large * fs) by (nonlinear_arith);
                    assert(large * fs == fs * large) by (nonlinear_arith);
                    let z = self.accu;
                    assert((((z >> shift) as u8) & 1 == 1)
                        == ((z >> shift) & 1 == 1)) by (bit_vector);
                }
                let seq = self.hamming_symbol + p * fs;
                self.write_channelbit(b, seq);
                p = p + 1;
            }
            self.accu = 1;
            self.hamming_symbol = self.hamming_symbol + 1;
            proof {
                lemma2_to64();
                vstd::arithmetic::power2::lemma_pow2_strictly_increases(0,
                    s.fec_order.spec_small_bits() as nat);
            }
            Ok(())
        } else {
            Ok(())
        }
    }

    /// Feeds the byte's 8 bits, most significant first.
    #[verifier::loop_isolation(false)]
    pub fn write_byte(&mut self, c: u8) -> (r: Result<(), EncodeError>)
        requires
            old(self).wf(),
            spec_run_bits(old(self).settings, old(self).view_state(), spec_byte_bits(c)).0.page
                <= 9999,
        ensures
            ({
                let (v2, ok) = spec_run_bits(old(self).settings, old(self).view_state(),
                    spec_byte_bits(c));
                &&& final(self).view_state() == v2
                &&& (r is Ok <==> ok)
                &&& (r is Err ==> r == Err::<(), EncodeError>(EncodeError::Unimplemented))
                &&& (ok ==> final(self).wf())
            }),
            final(self).settings == old(self).settings,
            final(self).base_filename == old(self).base_filename,
    {
        let ghost s = self.settings;
        let ghost v0 = self.view_state();
        let ghost bits = spec_byte_bits(c);
        proof {
            assert(bits.skip(0) =~= bits);
        }
        let mut i: u8 = 0;
        while i < 8
            invariant
                i <= 8,
                self.wf(),
                self.settings == s,
                self.base_filename == old(self).base_filename,
                spec_run_bits(s, self.view_state(), bits.skip(i as int))
                    == spec_run_bits(s, v0, bits),
                spec_run_bits(s, v0, bits).0.page <= 9999,
            decreases 8 - i,
        {
            let ghost rem = bits.skip(i as int);
            proof {
                assert(rem.len() == 8 - i);
                assert(rem[0] == ((c >> ((7 - i) as u8)) & 1 == 1));
                let (v1, ok1) = spec_step_bit(s, self.view_state(), rem[0]);
                if ok1 {
                    lemma_run_bits_page(s, v1, rem.drop_first());
                }
            }
            let r = self.write_payloadbit(c >> (7 - i));
            if let Err(e) = r {
                return Err(e);
            }
            proof {
                assert(rem.drop_first() =~= bits.skip(i as int + 1));
            }
            i = i + 1;
        }
        proof {
            assert(bits.skip(8) =~= Seq::<bool>::empty());
        }
        Ok(())
    }

    /// Consumes the whole byte stream, then pads with `small_bits - 1` zero
    /// bits to flush any partial final symbol, then commits the last
    /// in-progress page to the finished queue.
    #[verifier::loop_isolation(false)]
    pub fn feed_data(&mut self, data: &[u8]) -> (r: Result<(), EncodeError>)
        requires
            old(self).wf(),
            spec_feed(old(self).settings, old(self).view_state(), data@).0.page <= 9999,
        ensures
            ({
                let (v2, ok) = spec_feed(old(self).settings, old(self).view_state(), data@);
                &&& final(self).view_state() == v2
                &&& (r is Ok <==> ok)
                &&& (r is Err ==> r == Err::<(), EncodeError>(EncodeError::Unimplemented))
            }),
            final(self).settings == old(self).settings,
            final(self).base_filename == old(self).base_filename,
    {
        let ghost s = self.settings;
        let ghost v0 = self.view_state();
        let mut i: usize = 0;
        proof {
            lemma_feed_page(s, v0, data@);
            assert(data@.skip(0) =~= data@);
        }
        while i < data.len()
            invariant
                i <= data.len(),
                self.wf(),
                self.settings == s,
                self.base_filename == old(self).base_filename,
                spec_run_bytes(s, self.view_state(), data@.skip(i as int))
                    == spec_run_bytes(s, v0, data@),
                spec_feed(s, v0, data@).0.page <= 9999,
                spec_feed(s, v0, data@) == spec_feed(s, self.view_state(),
                    data@.skip(i as int)),
            decreases data.len() - i,
        {
            let ghost rem = data@.skip(i as int);
            proof {
                assert(rem[0] == data@[i as int]);
                let (v1, ok1) = spec_run_bits(s, self.view_state(), spec_byte_bits(rem[0]));
                if ok1 {
                    lemma_run_bytes_page(s, v1, rem.drop_first());
                    lemma_feed_page(s, v1, rem.drop_first());
                    assert(spec_run_bytes(s, v1, rem.drop_first()).0.page
                        <= spec_feed(s, v1, rem.drop_first()).0.page);
                }
            }
            let r = self.write_byte(data[i]);
            if let Err(e) = r {
                proof {
                    assert(spec_run_bytes(s, v0, data@).1 == false);
                }
                return Err(e);
            }
            proof {
                assert(rem.drop_first() =~= data@.skip(i as int + 1));
            }
            i = i + 1;
        }
        proof {
            assert(data@.skip(data@.len() as int) =~= Seq::<u8>::empty());
        }
        let ghost v1 = self.view_state();
        let small = self.settings.fec_order.small_bits();
        let mut j: u64 = 1;
        proof {
            assert(spec_pad_bits(small - 1) =~= spec_pad_bits(small - j as int));
        }
        while j < small
            invariant
                1 <= j <= vstd::math::max(small as int, 1),
                small == s.fec_order.spec_small_bits(),
                self.wf(),
                self.settings == s,
                self.base_filename == old(self).base_filename,
                spec_run_bits(s, self.view_state(), spec_pad_bits(small - j as int))
                    == spec_run_bits(s, v1, spec_pad_bits(small as int - 1)),
                spec_feed(s, v0, data@) == ({
                    let (v2, ok2) = spec_run_bits(s, v1, spec_pad_bits(small as int - 1));
                    if !ok2 {
                        (v2, false)
                    } else {
                        (EncState { finished: v2.finished.push(v2.buf), ..v2 }, true)
                    }
                }),
                spec_feed(s, v0, data@).0.page <= 9999,
            decreases small - j,
        {
            let ghost rem = spec_pad_bits(small - j as int);
            let ghost vb = self.view_state();
            proof {
                assert(rem.len() == small - j);
                assert(rem[0] == false);
                assert(0u8 & 1 == 0) by (bit_vector);
                let (w1, ok1) = spec_step_bit(s, vb, false);
                let (v2, ok2) = spec_run_bits(s, v1, spec_pad_bits(small as int - 1));
                assert(spec_run_bits(s, vb, rem) == (v2, ok2));
                if ok1 {
                    lemma_run_bits_page(s, w1, rem.drop_first());
                    assert(spec_run_bits(s, vb, rem)
                        == spec_run_bits(s, w1, rem.drop_first()));
                    assert(w1.page <= v2.page);
                } else {
                    assert(spec_run_bits(s, vb, rem) == (w1, false));
                }
                assert(spec_feed(s, v0, data@).0.page == v2.page);
                assert(w1.page <= 9999);
            }
            let r = self.write_payloadbit(0);
            if let Err(e) = r {
                proof {
                    assert(0u8 & 1 == 0) by (bit_vector);
                    let (w1, ok1) = spec_step_bit(s, vb, false);
                    assert(!ok1);
                    assert(spec_run_bits(s, vb, rem) == (w1, false));
                }
                return Err(e);
            }
            proof {
                assert(0u8 & 1 == 0) by (bit_vector);
                assert(rem.drop_first() =~= spec_pad_bits(small - (j + 1) as int));
            }
            j = j + 1;
        }
        proof {
            assert(spec_pad_bits(small - j as int) =~= Seq::<bool>::empty());
        }
        let ghost vpre = self.view_state();
        let page = self.buffer.clone();
        proof {
            assert(page@ =~= self.buffer@);
        }
        self.finished.push(page);
        proof {
            assert(self.finished@.map_values(|v: Vec<u8>| v@)
                =~= vpre.finished.push(vpre.buf));
        }
        Ok(())
    }
}

/// The whole feed never lowers the page counter below the byte run's.
pub proof fn lemma_feed_page(s: Settings, v: EncState, bytes: Seq<u8>)
    ensures
        spec_feed(s, v, bytes).0.page >= spec_run_bytes(s, v, bytes).0.page,
        spec_run_bytes(s, v, bytes).0.page >= v.page,
{
    lemma_run_bytes_page(s, v, bytes);
    let (v1, ok) = spec_run_bytes(s, v, bytes);
    if ok {
        lemma_run_bits_page(s, v1, spec_pad_bits(s.fec_order.spec_small_bits() - 1));
    }
}


/// Zero flush bits never complete a symbol while the accumulator's marker
/// stays below the boundary: they only shift the marker up.
pub proof fn lemma_pad_run_quiet(s: Settings, v: EncState, k: int)
    requires
        s.wf(),
        1 <= v.accu,
        v.accu * pow2(if k >= 0 { k as nat } else { 0 })
            < pow2(s.fec_order.spec_small_bits() as nat),
    ensures
        ({
            let (v2, ok) = spec_run_bits(s, v, spec_pad_bits(k));
            &&& ok
            &&& v2.finished == v.finished
            &&& v2.buf == v.buf
            &&& v2.page == v.page
            &&& v2.sym == v.sym
        }),
    decreases (if k >= 0 { k } else { 0 }),
{
    if k <= 0 {
        assert(spec_pad_bits(k).len() == 0);
    } else {
        let small = s.fec_order.spec_small_bits();
        assert(pow2(k as nat) == 2 * pow2((k - 1) as nat)) by {
            vstd::arithmetic::power2::lemma_pow2_adds(1, (k - 1) as nat);
            lemma2_to64();
        }
        assert(v.accu * pow2(k as nat) == (v.accu * 2) * pow2((k - 1) as nat))
            by (nonlinear_arith)
            requires pow2(k as nat) == 2 * pow2((k - 1) as nat);
        vstd::arithmetic::power2::lemma_pow2_pos((k - 1) as nat);
        assert(v.accu * 2 <= v.accu * pow2(k as nat)) by (nonlinear_arith)
            requires v.accu >= 0 && pow2(k as nat) == 2 * pow2((k - 1) as nat)
                && 1 <= pow2((k - 1) as nat);
        assert(1 <= small <= 62) by {
            lemma2_to64();
            match s.fec_order {
                FecOrder::Golay => {},
                FecOrder::Hamming(x) => {
                    if x < 6 {
                        vstd::arithmetic::power2::lemma_pow2_strictly_increases(x as nat, 6);
                    }
                    assert(pow2(x as nat) >= x + 2);
                },
            }
        }
        assert(pow2(small as nat) <= pow2(62)) by {
            if small < 62 {
                vstd::arithmetic::power2::lemma_pow2_strictly_increases(small as nat, 62);
            }
        }
        lemma2_to64();
        vstd::arithmetic::power2::lemma2_to64_rest();
        let a = v.accu;
        assert((a << 1u64) | 0u64 == 2 * a) by (bit_vector)
            requires a < 0x4000_0000_0000_0000u64;
        let raw = (v.accu << 1u64) | 0u64;
        let (v1, ok1) = spec_step_bit(s, v, false);
        assert(raw == 2 * v.accu && (raw as int) < pow2(small as nat));
        assert(ok1 && v1.accu == raw && v1.finished == v.finished && v1.buf == v.buf
            && v1.page == v.page && v1.sym == v.sym);
        lemma_pad_run_quiet(s, v1, k - 1);
        assert(spec_pad_bits(k).drop_first() =~= spec_pad_bits(k - 1));
        assert(spec_pad_bits(k)[0] == false);
    }
}

/// Feeding an empty byte stream still produces exactly one finished page,
/// and that page is the freshly formatted background: the flush padding
/// completes no symbol.
pub proof fn lemma_empty_stream_one_page(s: Settings, v: EncState)
    requires
        s.wf(),
        v.accu == 1,
        v.finished.len() == 0,
        v.buf == spec_page_background(s),
    ensures
        ({
            let (v2, ok) = spec_feed(s, v, Seq::<u8>::empty());
            &&& ok
            &&& v2.finished.len() == 1
            &&& v2.finished[0] == spec_page_background(s)
            &&& v2.page == v.page
        }),
{
    let small = s.fec_order.spec_small_bits();
    assert(spec_run_bytes(s, v, Seq::<u8>::empty()) == (v, true));
    assert(1 <= small) by {
        lemma2_to64();
        match s.fec_order {
            FecOrder::Golay => {},
            FecOrder::Hamming(x) => {
                assert(pow2(x as nat) >= x + 2);
            },
        }
    }
    assert(1 * pow2((small - 1) as nat) < pow2(small as nat)) by {
        vstd::arithmetic::power2::lemma_pow2_strictly_increases((small - 1) as nat,
            small as nat);
        vstd::arithmetic::power2::lemma_pow2_pos((small - 1) as nat);
    }
    lemma_pad_run_quiet(s, v, small - 1);
}


/// Payload bits streaming into fresh symbols: starting with the marker at
/// position `m`, a run whose length tops the marker up to whole symbols
/// completes exactly those symbols, never rolls the page over while the
/// symbol count stays within the page, and ends with a bare marker.
proof fn lemma_fill_bits(s: Settings, v: EncState, bits: Seq<bool>, m: int, q: int)
    requires
        s.wf(),
        s.fec_order is Hamming,
        0 <= m < s.fec_order.spec_small_bits(),
        pow2(m as nat) <= v.accu < pow2((m + 1) as nat),
        m + bits.len() == q * s.fec_order.spec_small_bits(),
        0 <= v.sym,
        v.sym + q <= s.spec_fec_syms(),
    ensures
        ({
            let (v2, ok) = spec_run_bits(s, v, bits);
            &&& ok
            &&& v2.accu == 1
            &&& v2.sym == v.sym + q
            &&& v2.page == v.page
            &&& v2.finished == v.finished
        }),
    decreases bits.len(),
{
    let small = s.fec_order.spec_small_bits();
    s.lemma_dims();
    assert(q >= 0) by (nonlinear_arith)
        requires m + bits.len() == q * small && 0 <= m && small > 0 && bits.len() >= 0;
    if bits.len() == 0 {
        assert(m == q * small);
        assert(q == 0) by (nonlinear_arith)
            requires m == q * small && 0 <= m < small && q >= 0;
        assert(pow2(0) == 1) by {
            lemma2_to64();
        }
        assert(pow2(1) == 2) by {
            lemma2_to64();
        }
        assert(v.accu == 1);
    } else {
        assert(small <= 62 && m + 1 <= 62) by {
            lemma2_to64();
            match s.fec_order {
                FecOrder::Golay => {},
                FecOrder::Hamming(x) => {
                    if x < 6 {
                        vstd::arithmetic::power2::lemma_pow2_strictly_increases(x as nat, 6);
                    }
                },
            }
        }
        assert(pow2((m + 1) as nat) <= pow2(62nat)) by {
            if m + 1 < 62 {
                vstd::arithmetic::power2::lemma_pow2_strictly_increases((m + 1) as nat, 62);
            }
        }
        lemma2_to64();
        vstd::arithmetic::power2::lemma2_to64_rest();
        let a = v.accu;
        let bv2: u64 = if bits[0] { 1u64 } else { 0u64 };
        assert(((a << 1u64) | bv2) == 2 * a + bv2) by (bit_vector)
            requires a < 0x4000_0000_0000_0000u64 && bv2 <= 1u64;
        let raw = (v.accu << 1u64) | bv2;
        assert(raw == 2 * a + bv2);
        assert(pow2((m + 2) as nat) == 2 * pow2((m + 1) as nat)
            && pow2((m + 1) as nat) == 2 * pow2(m as nat)) by {
            vstd::arithmetic::power2::lemma_pow2_adds(1, (m + 1) as nat);
            vstd::arithmetic::power2::lemma_pow2_adds(1, m as nat);
        }
        assert(pow2((m + 1) as nat) <= raw < pow2((m + 2) as nat));
        let (v1, ok1) = spec_step_bit(s, v, bits[0]);
        if m + 1 == small {
            // the marker reaches the boundary: one symbol completes
            assert(!((raw as int) < pow2(small as nat)));
            assert(v.sym < s.spec_fec_syms()) by (nonlinear_arith)
                requires
                    v.sym + q <= s.spec_fec_syms(),
                    1 * small <= q * small,
                    small > 0,
                    m + bits.len() == q * small,
                    m + 1 == small,
                    bits.len() >= 1;
            assert(ok1 && v1.accu == 1 && v1.sym == v.sym + 1 && v1.page == v.page
                && v1.finished == v.finished);
            assert((q - 1) * small == q * small - small) by (nonlinear_arith);
            assert(pow2(0) == 1 && pow2(1) == 2);
            lemma_fill_bits(s, v1, bits.drop_first(), 0, q - 1);
        } else {
            assert((raw as int) < pow2(small as nat)) by {
                if m + 2 < small {
                    vstd::arithmetic::power2::lemma_pow2_strictly_increases(
                        (m + 2) as nat, small as nat);
                }
            }
            assert(ok1 && v1.accu == raw && v1.sym == v.sym && v1.page == v.page
                && v1.finished == v.finished && v1.buf == v.buf);
            lemma_fill_bits(s, v1, bits.drop_first(), m + 1, q);
        }
    }
}

/// Exactly one page's worth of payload bits, fed from a fresh page, fills
/// its symbols exactly: no page rollover happens, and no partially encoded
/// symbol remains - the accumulator ends as a bare marker.
pub proof fn lemma_exact_fill_no_rollover(s: Settings, v: EncState, bits: Seq<bool>)
    requires
        s.wf(),
        s.fec_order is Hamming,
        1 <= s.spec_fec_syms(),
        v.accu == 1,
        v.sym == 0,
        bits.len() == s.spec_net_bits(),
    ensures
        ({
            let (v2, ok) = spec_run_bits(s, v, bits);
            &&& ok
            &&& v2.accu == 1
            &&& v2.sym == s.spec_fec_syms()
            &&& v2.page == v.page
            &&& v2.finished == v.finished
        }),
{
    s.lemma_capacity();
    assert(pow2(0) == 1 && pow2(1) == 2) by {
        lemma2_to64();
    }
    assert(1 <= s.fec_order.spec_small_bits()) by {
        lemma2_to64();
        match s.fec_order {
            FecOrder::Golay => {},
            FecOrder::Hamming(x) => {
                assert(pow2(x as nat) >= x + 2);
            },
        }
    }
    lemma_fill_bits(s, v, bits, 0, s.spec_fec_syms());
}


/// A byte run's payload bits, flattened in feeding order.
pub open spec fn flat_bits(bytes: Seq<u8>) -> Seq<bool>
    decreases bytes.len(),
{
    if bytes.len() == 0 {
        Seq::empty()
    } else {
        spec_byte_bits(bytes[0]) + flat_bits(bytes.drop_first())
    }
}

/// Runs compose: feeding `a` then `b` is feeding `a + b`.
proof fn lemma_run_bits_concat(s: Settings, v: EncState, a: Seq<bool>, b: Seq<bool>)
    ensures
        spec_run_bits(s, v, a + b) == ({
            let (v1, ok) = spec_run_bits(s, v, a);
            if ok {
                spec_run_bits(s, v1, b)
            } else {
                (v1, false)
            }
        }),
    decreases a.len(),
{
    if a.len() == 0 {
        assert(a + b =~= b);
    } else {
        assert((a + b)[0] == a[0]);
        assert((a + b).drop_first() =~= a.drop_first() + b);
        let (v1, ok) = spec_step_bit(s, v, a[0]);
        if ok {
            lemma_run_bits_concat(s, v1, a.drop_first(), b);
        }
    }
}

/// A byte run is the run of its flattened bits.
proof fn lemma_run_bytes_flat(s: Settings, v: EncState, bytes: Seq<u8>)
    ensures
        flat_bits(bytes).len() == 8 * bytes.len(),
        spec_run_bytes(s, v, bytes) == spec_run_bits(s, v, flat_bits(bytes)),
    decreases bytes.len(),
{
    if bytes.len() == 0 {
    } else {
        let (v1, ok) = spec_run_bits(s, v, spec_byte_bits(bytes[0]));
        lemma_run_bits_concat(s, v, spec_byte_bits(bytes[0]), flat_bits(bytes.drop_first()));
        lemma_run_bytes_flat(s, v1, bytes.drop_first());
        lemma_run_bytes_flat(s, v, bytes.drop_first());
    }
}

/// Feeding exactly `net_bits / 8` bytes, when the page's net capacity is a
/// whole number of bytes, fills the fresh page's symbols exactly: no page
/// rollover happens beyond what the capacity dictates (none), and no
/// partially encoded symbol remains pending - the accumulator ends as a
/// bare marker.
pub proof fn lemma_exact_byte_fill(s: Settings, v: EncState, bytes: Seq<u8>)
    requires
        s.wf(),
        s.fec_order is Hamming,
        1 <= s.spec_fec_syms(),
        v.accu == 1,
        v.sym == 0,
        8 * bytes.len() == s.spec_net_bits(),
    ensures
        ({
            let (v2, ok) = spec_run_bytes(s, v, bytes);
            &&& ok
            &&& v2.accu == 1
            &&& v2.sym == s.spec_fec_syms()
            &&& v2.page == v.page
            &&& v2.finished == v.finished
        }),
{
    lemma_run_bytes_flat(s, v, bytes);
    lemma_exact_fill_no_rollover(s, v, flat_bits(bytes));
}

} // verus!
