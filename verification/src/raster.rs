use vstd::prelude::*;

use crate::color::Color;
use crate::color::color_bytes;
use crate::image::Image;
use crate::image::lemma_pixel_regions_disjoint;
use crate::image::pixel_off;
use crate::vec::Vec2;
use crate::vec::Vec3;
use crate::zbuffer::ZBuffer;

verus! {

/// The magnitude of an integer.
pub open spec fn iabs(v: int) -> int {
    if v < 0 {
        -v
    } else {
        v
    }
}

/// Whether a segment is steep: its vertical extent exceeds its
/// horizontal one.  A steep segment is rasterized transposed.
pub open spec fn line_steep(p0: Vec2, p1: Vec2) -> bool {
    iabs(p1.x - p0.x) < iabs(p1.y - p0.y)
}

/// The walked (major) coordinate of an endpoint, after the transpose.
pub open spec fn major(p: Vec2, st: bool) -> int {
    if st {
        p.y as int
    } else {
        p.x as int
    }
}

/// The stepped (minor) coordinate of an endpoint, after the transpose.
pub open spec fn minor(p: Vec2, st: bool) -> int {
    if st {
        p.x as int
    } else {
        p.y as int
    }
}

/// Whether the endpoints trade places so the walk goes left to right.
pub open spec fn line_swap(p0: Vec2, p1: Vec2) -> bool {
    major(p0, line_steep(p0, p1)) > major(p1, line_steep(p0, p1))
}

/// The major coordinate the walk starts at.
pub open spec fn lx0(p0: Vec2, p1: Vec2) -> int {
    if line_swap(p0, p1) {
        major(p1, line_steep(p0, p1))
    } else {
        major(p0, line_steep(p0, p1))
    }
}

/// The minor coordinate the walk starts at.
pub open spec fn ly0(p0: Vec2, p1: Vec2) -> int {
    if line_swap(p0, p1) {
        minor(p1, line_steep(p0, p1))
    } else {
        minor(p0, line_steep(p0, p1))
    }
}

/// The major coordinate the walk ends at.
pub open spec fn lx1(p0: Vec2, p1: Vec2) -> int {
    if line_swap(p0, p1) {
        major(p0, line_steep(p0, p1))
    } else {
        major(p1, line_steep(p0, p1))
    }
}

/// The minor coordinate the walk ends at.
pub open spec fn ly1(p0: Vec2, p1: Vec2) -> int {
    if line_swap(p0, p1) {
        minor(p0, line_steep(p0, p1))
    } else {
        minor(p1, line_steep(p0, p1))
    }
}

/// The minor coordinate the raster line takes at its k-th column: the
/// integer that keeps the accumulated error within half a step, which is
/// the nearest integer to the exact line, ties rounded toward the start.
pub open spec fn bres_minor(p0: Vec2, p1: Vec2, k: int) -> int {
    let dx = lx1(p0, p1) - lx0(p0, p1);
    let dy = ly1(p0, p1) - ly0(p0, p1);
    let m = if dx == 0 {
        0
    } else {
        (2 * iabs(dy) * k + dx - 1) / (2 * dx)
    };
    ly0(p0, p1) + (if dy > 0 {
        m
    } else {
        -m
    })
}

/// Whether the raster line from `p0` to `p1` colors pixel (px, py):
/// exactly the pixels (c, bres_minor(c)) for each major coordinate c
/// between the endpoints, transposed back for a steep segment.
pub open spec fn line_covered(p0: Vec2, p1: Vec2, px: int, py: int) -> bool {
    let st = line_steep(p0, p1);
    let cx = if st {
        py
    } else {
        px
    };
    let cy = if st {
        px
    } else {
        py
    };
    lx0(p0, p1) <= cx <= lx1(p0, p1) && cy == bres_minor(p0, p1, cx - lx0(p0, p1))
}

/// A line from a point to itself covers exactly that point.
pub proof fn lemma_line_point(p: Vec2, px: int, py: int)
    ensures
        line_covered(p, p, px, py) <==> (px == p.x as int && py == p.y as int),
{
}

/// A line covers the same pixels drawn from either end.
pub proof fn lemma_line_symmetric(p0: Vec2, p1: Vec2, px: int, py: int)
    ensures
        line_covered(p0, p1, px, py) == line_covered(p1, p0, px, py),
{
    assert(line_steep(p0, p1) == line_steep(p1, p0));
    let st = line_steep(p0, p1);
    if major(p0, st) == major(p1, st) {
        assert(minor(p0, st) == minor(p1, st));
    }
}

impl Image {
    /// Rasterize the segment from `from` to `to` in color `c`: the
    /// standard minimal-error integer line.  Exactly the pixels of
    /// `line_covered` change, and each takes the color's first
    /// `bytespp` channels.
    #[verifier::rlimit(50)]
    pub fn line(&mut self, from: Vec2, to: Vec2, c: &Color)
        requires
            old(self).wf(),
            0 <= from.x && (from.x as int) < old(self).width,
            0 <= from.y && (from.y as int) < old(self).height,
            0 <= to.x && (to.x as int) < old(self).width,
            0 <= to.y && (to.y as int) < old(self).height,
        ensures
            final(self).wf(),
            final(self).width == old(self).width,
            final(self).height == old(self).height,
            final(self).bytespp == old(self).bytespp,
            forall|px: int, py: int|
                0 <= px < old(self).width && 0 <= py < old(self).height
                    ==> #[trigger] final(self).pixel(px, py) == (if line_covered(from, to, px, py) {
                    color_bytes(*c, old(self).bytespp as int)
                } else {
                    old(self).pixel(px, py)
                }),
    {
        let mut steep = false;
        let mut x0: i64 = from.x as i64;
        let mut y0: i64 = from.y as i64;
        let mut x1: i64 = to.x as i64;
        let mut y1: i64 = to.y as i64;
        let adx = if x1 > x0 {
            x1 - x0
        } else {
            x0 - x1
        };
        let ady = if y1 > y0 {
            y1 - y0
        } else {
            y0 - y1
        };
        if adx < ady {
            let t = x0;
            x0 = y0;
            y0 = t;
            let t2 = x1;
            x1 = y1;
            y1 = t2;
            steep = true;
        }
        if x0 > x1 {
            let t = x0;
            x0 = x1;
            x1 = t;
            let t2 = y0;
            y0 = y1;
            y1 = t2;
        }
        proof {
            assert(steep == line_steep(from, to));
            assert(x0 == lx0(from, to) && y0 == ly0(from, to) && x1 == lx1(from, to) && y1 == ly1(
                from,
                to,
            ));
        }
        let dx = x1 - x0;
        let dy = y1 - y0;
        let derror2 = 2 * (if dy < 0 {
            -dy
        } else {
            dy
        });
        let sy: i64 = if y1 > y0 {
            1
        } else {
            -1
        };
        let mut error2: i64 = 0;
        let mut y: i64 = y0;
        let mut x: i64 = x0;
        let ghost mut m: int = 0;
        proof {
            assert(error2 == 2 * iabs(dy as int) * (x - x0) - 2 * dx * m) by (nonlinear_arith)
                requires
                    x == x0,
                    m == 0,
                    error2 == 0,
            ;
        }
        let ghost mjlim: int = if steep {
            old(self).height as int
        } else {
            old(self).width as int
        };
        let ghost mnlim: int = if steep {
            old(self).width as int
        } else {
            old(self).height as int
        };
        while x <= x1
            invariant
                self.wf(),
                self.width == old(self).width,
                self.height == old(self).height,
                self.bytespp == old(self).bytespp,
                steep == line_steep(from, to),
                x0 == lx0(from, to),
                y0 == ly0(from, to),
                x1 == lx1(from, to),
                y1 == ly1(from, to),
                dx == x1 - x0,
                dy == y1 - y0,
                0 <= dx,
                iabs(dy as int) <= dx,
                derror2 == 2 * iabs(dy as int),
                sy == (if dy > 0 {
                    1int
                } else {
                    -1int
                }),
                mjlim == (if steep {
                    old(self).height as int
                } else {
                    old(self).width as int
                }),
                mnlim == (if steep {
                    old(self).width as int
                } else {
                    old(self).height as int
                }),
                0 <= x0,
                x1 < mjlim,
                0 <= (if y0 < y1 {
                    y0
                } else {
                    y1
                }),
                (if y0 > y1 {
                    y0
                } else {
                    y1
                }) < mnlim,
                x0 <= x <= x1 + 1,
                0 <= m <= iabs(dy as int) + 1,
                y == y0 + (if dy > 0 {
                    m
                } else {
                    -m
                }),
                error2 == 2 * iabs(dy as int) * (x - x0) - 2 * dx * m,
                dx > 0 ==> -dx < error2 <= dx,
                dx == 0 ==> error2 == 0 && m == 0,
                forall|px: int, py: int|
                    0 <= px < old(self).width && 0 <= py < old(self).height
                        ==> #[trigger] self.pixel(px, py) == (if line_covered(from, to, px, py)
                        && (if steep {
                        py
                    } else {
                        px
                    }) < x {
                        color_bytes(*c, old(self).bytespp as int)
                    } else {
                        old(self).pixel(px, py)
                    }),
            decreases x1 + 1 - x,
        {
            let ghost k = x - x0;
            proof {
                // at a plotted column the step count stays within the rise
                if dx > 0 {
                    assert(m <= iabs(dy as int)) by (nonlinear_arith)
                        requires
                            error2 == 2 * iabs(dy as int) * (x - x0) - 2 * dx * m,
                            -dx < error2,
                            0 <= x - x0 <= dx,
                            iabs(dy as int) <= dx,
                            0 < dx,
                    ;
                }
            }
            let plx = if steep {
                y
            } else {
                x
            };
            let ply = if steep {
                x
            } else {
                y
            };
            proof {
                assert(0 <= plx && plx < self.width && 0 <= ply && ply < self.height);
            }
            let ghost data_prev = self.data@;
            let ghost self_prev = *self;
            let _ = self.set(plx as usize, ply as usize, c);
            proof {
                let w = old(self).width as int;
                let h = old(self).height as int;
                let bpp = old(self).bytespp as int;
                // the plotted pixel is the one the line covers at column k
                if dx > 0 {
                    assert(2 * iabs(dy as int) * k + dx - 1 == m * (2 * dx) + (error2 + dx - 1))
                        by (nonlinear_arith)
                        requires
                            error2 == 2 * iabs(dy as int) * (x - x0) - 2 * dx * m,
                            k == x - x0,
                    ;
                    vstd::arithmetic::div_mod::lemma_fundamental_div_mod_converse_div(
                        2 * iabs(dy as int) * k + dx - 1,
                        2 * dx,
                        m,
                        error2 + dx - 1,
                    );
                }
                assert(bres_minor(from, to, k) == y as int);
                assert forall|px: int, py: int| 0 <= px < w && 0 <= py < h
                    implies #[trigger] self.pixel(px, py) == (if line_covered(from, to, px, py)
                    && (if steep {
                    py
                } else {
                    px
                }) < x + 1 {
                    color_bytes(*c, bpp)
                } else {
                    old(self).pixel(px, py)
                }) by {
                    self.lemma_pixel_off_in_range(px, py);
                    assert(self_prev.pixel(px, py) == (if line_covered(from, to, px, py) && (if steep {
                        py
                    } else {
                        px
                    }) < x {
                        color_bytes(*c, bpp)
                    } else {
                        old(self).pixel(px, py)
                    }));
                    if px == plx as int && py == ply as int {
                        assert(self.pixel(px, py) =~= color_bytes(*c, bpp));
                        assert(line_covered(from, to, px, py));
                    } else {
                        lemma_pixel_regions_disjoint(w, h, bpp, plx as int, ply as int, px, py);
                        assert(self.pixel(px, py) =~= self_prev.pixel(px, py));
                        if line_covered(from, to, px, py) && (if steep {
                            py
                        } else {
                            px
                        }) == x as int {
                            // the covered pixel of this column is the plotted one
                            assert(px == plx as int && py == ply as int);
                            assert(false);
                        }
                    }
                }
            }
            let ghost e0 = error2 as int;
            let ghost m0 = m;
            error2 = error2 + derror2;
            if error2 > dx {
                y = y + sy;
                error2 = error2 - 2 * dx;
                proof {
                    m = m + 1;
                    assert(error2 == 2 * iabs(dy as int) * (x + 1 - x0) - 2 * dx * m)
                        by (nonlinear_arith)
                        requires
                            e0 == 2 * iabs(dy as int) * (x - x0) - 2 * dx * m0,
                            error2 == e0 + 2 * iabs(dy as int) - 2 * dx,
                            m == m0 + 1,
                    ;
                }
            } else {
                proof {
                    assert(error2 == 2 * iabs(dy as int) * (x + 1 - x0) - 2 * dx * m)
                        by (nonlinear_arith)
                        requires
                            e0 == 2 * iabs(dy as int) * (x - x0) - 2 * dx * m0,
                            error2 == e0 + 2 * iabs(dy as int),
                            m == m0,
                    ;
                }
            }
            x = x + 1;
        }
        proof {
            assert forall|px: int, py: int|
                0 <= px < old(self).width && 0 <= py < old(self).height
                    implies #[trigger] self.pixel(px, py) == (if line_covered(from, to, px, py) {
                color_bytes(*c, old(self).bytespp as int)
            } else {
                old(self).pixel(px, py)
            }) by {
                if line_covered(from, to, px, py) {
                    assert((if steep {
                        py
                    } else {
                        px
                    }) <= x1 < x);
                }
            }
        }
    }
}

/// Linear interpolation between `v0` and `v1` at the ratio `num / den`,
/// the division truncated toward `v0`.
pub open spec fn spec_interp(v0: int, v1: int, num: int, den: int) -> int {
    if v1 >= v0 {
        v0 + (v1 - v0) * num / den
    } else {
        v0 - (v0 - v1) * num / den
    }
}

/// An interpolated value stays between its endpoints.
pub proof fn lemma_interp_bounds(v0: int, v1: int, num: int, den: int)
    requires
        0 <= num <= den,
        1 <= den,
    ensures
        v1 >= v0 ==> v0 <= spec_interp(v0, v1, num, den) <= v1,
        v1 < v0 ==> v1 <= spec_interp(v0, v1, num, den) <= v0,
{
    let d = if v1 >= v0 {
        v1 - v0
    } else {
        v0 - v1
    };
    assert(0 <= d * num && d * num <= d * den) by (nonlinear_arith)
        requires
            0 <= d,
            0 <= num <= den,
    ;
    vstd::arithmetic::div_mod::lemma_div_pos_is_pos(d * num, den);
    vstd::arithmetic::div_mod::lemma_div_is_ordered(d * num, d * den, den);
    vstd::arithmetic::div_mod::lemma_div_by_multiple(d, den);
}

/// Interpolate between two coordinates; all quantities fit well inside
/// the word, so the ratio is taken with exact integer arithmetic.
fn interp(v0: i64, v1: i64, num: i64, den: i64) -> (r: i64)
    requires
        -0x8000_0000 <= v0 <= 0x7fff_ffff,
        -0x8000_0000 <= v1 <= 0x7fff_ffff,
        0 <= num <= den,
        1 <= den <= 0xffff_ffff,
    ensures
        r == spec_interp(v0 as int, v1 as int, num as int, den as int),
        v1 >= v0 ==> v0 <= r <= v1,
        v1 < v0 ==> v1 <= r <= v0,
{
    proof {
        lemma_interp_bounds(v0 as int, v1 as int, num as int, den as int);
    }
    if v1 >= v0 {
        let diff = (v1 - v0) as u64;
        proof {
            assert(diff * (num as u64) <= diff * (den as u64) && diff * (den as u64)
                <= 0xffff_ffff_ffff_ffff) by (nonlinear_arith)
                requires
                    0 <= diff <= 0x1_0000_0000,
                    0 <= num <= den,
                    den <= 0xffff_ffff,
            ;
        }
        let q = (diff * (num as u64)) / (den as u64);
        proof {
            vstd::arithmetic::div_mod::lemma_div_is_ordered(
                diff as int * num as int,
                diff as int * den as int,
                den as int,
            );
            vstd::arithmetic::div_mod::lemma_div_by_multiple(diff as int, den as int);
            vstd::arithmetic::div_mod::lemma_div_pos_is_pos(diff as int * num as int, den as int);
        }
        v0 + q as i64
    } else {
        let diff = (v0 - v1) as u64;
        proof {
            assert(diff * (num as u64) <= diff * (den as u64) && diff * (den as u64)
                <= 0xffff_ffff_ffff_ffff) by (nonlinear_arith)
                requires
                    0 <= diff <= 0x1_0000_0000,
                    0 <= num <= den,
                    den <= 0xffff_ffff,
            ;
        }
        let q = (diff * (num as u64)) / (den as u64);
        proof {
            vstd::arithmetic::div_mod::lemma_div_is_ordered(
                diff as int * num as int,
                diff as int * den as int,
                den as int,
            );
            vstd::arithmetic::div_mod::lemma_div_by_multiple(diff as int, den as int);
            vstd::arithmetic::div_mod::lemma_div_pos_is_pos(diff as int * num as int, den as int);
        }
        v0 - q as i64
    }
}

/// The three vertices ordered by ascending y, by the same three
/// conditional exchanges the fill performs.
pub open spec fn tri_sort(t0: Vec3, t1: Vec3, t2: Vec3) -> (Vec3, Vec3, Vec3) {
    let (a, b) = if t0.y > t1.y {
        (t1, t0)
    } else {
        (t0, t1)
    };
    let (a2, c2) = if a.y > t2.y {
        (t2, a)
    } else {
        (a, t2)
    };
    let (b3, c3) = if b.y > c2.y {
        (c2, b)
    } else {
        (b, c2)
    };
    (a2, b3, c3)
}

/// Whether row offset `i` of the fill lies in the upper half of the
/// triangle, worked along the edge from the middle to the top vertex.
pub open spec fn tri_upper(s0: Vec3, s1: Vec3, s2: Vec3, i: int) -> bool {
    i > s1.y - s0.y || s1.y == s0.y
}

/// The height of the half-specific edge at row offset `i`.
pub open spec fn tri_seg(s0: Vec3, s1: Vec3, s2: Vec3, i: int) -> int {
    if tri_upper(s0, s1, s2, i) {
        s2.y - s1.y
    } else {
        s1.y - s0.y
    }
}

/// The first scanline endpoint at row offset `i`: along the long edge.
pub open spec fn tri_ax(s0: Vec3, s1: Vec3, s2: Vec3, i: int) -> int {
    spec_interp(s0.x as int, s2.x as int, i, s2.y - s0.y)
}

/// The depth of the first scanline endpoint at row offset `i`.
pub open spec fn tri_az(s0: Vec3, s1: Vec3, s2: Vec3, i: int) -> int {
    spec_interp(s0.z as int, s2.z as int, i, s2.y - s0.y)
}

/// The second scanline endpoint at row offset `i`: along the
/// half-specific edge.
pub open spec fn tri_bx(s0: Vec3, s1: Vec3, s2: Vec3, i: int) -> int {
    if tri_upper(s0, s1, s2, i) {
        spec_interp(s1.x as int, s2.x as int, i - (s1.y - s0.y), tri_seg(s0, s1, s2, i))
    } else {
        spec_interp(s0.x as int, s1.x as int, i, tri_seg(s0, s1, s2, i))
    }
}

/// The depth of the second scanline endpoint at row offset `i`.
pub open spec fn tri_bz(s0: Vec3, s1: Vec3, s2: Vec3, i: int) -> int {
    if tri_upper(s0, s1, s2, i) {
        spec_interp(s1.z as int, s2.z as int, i - (s1.y - s0.y), tri_seg(s0, s1, s2, i))
    } else {
        spec_interp(s0.z as int, s1.z as int, i, tri_seg(s0, s1, s2, i))
    }
}

/// The left end of the fill's scanline at row offset `i`.
pub open spec fn tri_left(s0: Vec3, s1: Vec3, s2: Vec3, i: int) -> int {
    if tri_ax(s0, s1, s2, i) > tri_bx(s0, s1, s2, i) {
        tri_bx(s0, s1, s2, i)
    } else {
        tri_ax(s0, s1, s2, i)
    }
}

/// The right end of the fill's scanline at row offset `i` (exclusive).
pub open spec fn tri_right(s0: Vec3, s1: Vec3, s2: Vec3, i: int) -> int {
    if tri_ax(s0, s1, s2, i) > tri_bx(s0, s1, s2, i) {
        tri_ax(s0, s1, s2, i)
    } else {
        tri_bx(s0, s1, s2, i)
    }
}

/// The depth at the left end of the fill's scanline.
pub open spec fn tri_lz(s0: Vec3, s1: Vec3, s2: Vec3, i: int) -> int {
    if tri_ax(s0, s1, s2, i) > tri_bx(s0, s1, s2, i) {
        tri_bz(s0, s1, s2, i)
    } else {
        tri_az(s0, s1, s2, i)
    }
}

/// The depth at the right end of the fill's scanline.
pub open spec fn tri_rz(s0: Vec3, s1: Vec3, s2: Vec3, i: int) -> int {
    if tri_ax(s0, s1, s2, i) > tri_bx(s0, s1, s2, i) {
        tri_az(s0, s1, s2, i)
    } else {
        tri_bz(s0, s1, s2, i)
    }
}

/// Whether the depth-tested fill of the triangle visits pixel (x, y):
/// its row lies between the lowest and the highest vertex, and its
/// column within the two interpolated edge crossings of that row.
pub open spec fn tri_covered(t0: Vec3, t1: Vec3, t2: Vec3, x: int, y: int) -> bool {
    let s = tri_sort(t0, t1, t2);
    let i = y - s.0.y;
    0 <= i < s.2.y - s.0.y && tri_left(s.0, s.1, s.2, i) <= x < tri_right(s.0, s.1, s.2, i)
}

/// The depth the fill interpolates at a visited pixel.
pub open spec fn tri_depth(t0: Vec3, t1: Vec3, t2: Vec3, x: int, y: int) -> int {
    let s = tri_sort(t0, t1, t2);
    let i = y - s.0.y;
    spec_interp(
        tri_lz(s.0, s.1, s.2, i),
        tri_rz(s.0, s.1, s.2, i),
        x - tri_left(s.0, s.1, s.2, i),
        tri_right(s.0, s.1, s.2, i) - tri_left(s.0, s.1, s.2, i),
    )
}

impl Image {
    /// One depth-tested plot: when `z` is strictly greater than the
    /// stored depth at (x, y), write the color there and store `z`;
    /// otherwise change nothing.
    fn plot_depth(&mut self, zbuf: &mut ZBuffer, x: usize, y: usize, z: i32, c: &Color)
        requires
            old(self).wf(),
            old(zbuf).wf(),
            old(zbuf).width == old(self).width,
            old(zbuf).height == old(self).height,
            x < old(self).width,
            y < old(self).height,
        ensures
            final(self).wf(),
            final(zbuf).wf(),
            final(self).width == old(self).width,
            final(self).height == old(self).height,
            final(self).bytespp == old(self).bytespp,
            final(zbuf).width == old(zbuf).width,
            final(zbuf).height == old(zbuf).height,
            z > old(zbuf).at(x as int, y as int) ==> {
                &&& final(zbuf).at(x as int, y as int) == z
                &&& final(self).pixel(x as int, y as int) == color_bytes(
                    *c,
                    old(self).bytespp as int,
                )
                &&& forall|i: int, j: int|
                    0 <= i < old(self).width && 0 <= j < old(self).height && !(i == x && j == y)
                        ==> #[trigger] final(zbuf).at(i, j) == old(zbuf).at(i, j)
                        && final(self).pixel(i, j) == old(self).pixel(i, j)
            },
            z <= old(zbuf).at(x as int, y as int) ==> final(self).data@ == old(self).data@
                && final(zbuf).data@ == old(zbuf).data@,
    {
        let d = zbuf.val(x, y);
        if d < z {
            zbuf.set_val(x, y, z);
            let ghost self_prev = *self;
            let _ = self.set(x, y, c);
            proof {
                let w = old(self).width as int;
                let h = old(self).height as int;
                let bpp = old(self).bytespp as int;
                self.lemma_pixel_off_in_range(x as int, y as int);
                assert(self.pixel(x as int, y as int) =~= color_bytes(*c, bpp));
                assert forall|i: int, j: int|
                    0 <= i < w && 0 <= j < h && !(i == x && j == y) implies #[trigger] self.pixel(
                    i,
                    j,
                ) == old(self).pixel(i, j) by {
                    self.lemma_pixel_off_in_range(i, j);
                    lemma_pixel_regions_disjoint(w, h, bpp, x as int, y as int, i, j);
                    assert(self.pixel(i, j) =~= self_prev.pixel(i, j));
                }
            }
        }
    }
}


/// What one depth-tested fill guarantees, pixel by pixel: exactly the
/// covered pixels whose interpolated depth strictly beats the stored one
/// take the fill color and that depth; everything else stays.
pub open spec fn triangle_post(
    t0: Vec3,
    t1: Vec3,
    t2: Vec3,
    c: Color,
    zpre: ZBuffer,
    ipre: Image,
    zpost: ZBuffer,
    ipost: Image,
) -> bool {
    &&& forall|x: int, y: int|
        0 <= x < ipre.width && 0 <= y < ipre.height && tri_covered(t0, t1, t2, x, y) && tri_depth(
            t0,
            t1,
            t2,
            x,
            y,
        ) > zpre.at(x, y) ==> #[trigger] zpost.at(x, y) == tri_depth(t0, t1, t2, x, y)
            && ipost.pixel(x, y) == color_bytes(c, ipre.bytespp as int)
    &&& forall|x: int, y: int|
        0 <= x < ipre.width && 0 <= y < ipre.height && !(tri_covered(t0, t1, t2, x, y)
            && tri_depth(t0, t1, t2, x, y) > zpre.at(x, y)) ==> #[trigger] zpost.at(x, y)
            == zpre.at(x, y) && ipost.pixel(x, y) == ipre.pixel(x, y)
}

impl Image {
    /// Depth-tested scan fill of the triangle with vertices `t0`, `t1`,
    /// `t2`.  A triangle whose vertices share one y-coordinate draws
    /// nothing.  Otherwise exactly the pixels of `tri_covered` whose
    /// interpolated depth `tri_depth` strictly beats the stored one take
    /// the triangle's color and that depth; every other pixel and depth
    /// cell stays as it was, so the depth buffer never decreases.
    #[verifier::rlimit(100)]
    pub fn triangle(&mut self, t0: Vec3, t1: Vec3, t2: Vec3, c: &Color, zbuf: &mut ZBuffer)
        requires
            old(self).wf(),
            old(zbuf).wf(),
            old(zbuf).width == old(self).width,
            old(zbuf).height == old(self).height,
            0 <= t0.x && (t0.x as int) < old(self).width,
            0 <= t0.y && (t0.y as int) < old(self).height,
            0 <= t1.x && (t1.x as int) < old(self).width,
            0 <= t1.y && (t1.y as int) < old(self).height,
            0 <= t2.x && (t2.x as int) < old(self).width,
            0 <= t2.y && (t2.y as int) < old(self).height,
        ensures
            final(self).wf(),
            final(zbuf).wf(),
            final(self).width == old(self).width,
            final(self).height == old(self).height,
            final(self).bytespp == old(self).bytespp,
            final(zbuf).width == old(zbuf).width,
            final(zbuf).height == old(zbuf).height,
            t0.y == t1.y && t1.y == t2.y ==> final(self).data@ == old(self).data@
                && final(zbuf).data@ == old(zbuf).data@,
            forall|x: int, y: int|
                0 <= x < old(self).width && 0 <= y < old(self).height
                    ==> #[trigger] final(zbuf).at(x, y) >= old(zbuf).at(x, y),
            triangle_post(t0, t1, t2, *c, *old(zbuf), *old(self), *final(zbuf), *final(self)),
    {
        let ghost s0 = tri_sort(t0, t1, t2).0;
        let ghost s1 = tri_sort(t0, t1, t2).1;
        let ghost s2 = tri_sort(t0, t1, t2).2;
        if t0.y == t1.y && t0.y == t2.y {
            proof {
                assert(s2.y - s0.y == 0);
            }
            return ;
        }
        let mut p0 = t0;
        let mut p1 = t1;
        let mut p2 = t2;
        if p0.y > p1.y {
            let t = p0;
            p0 = p1;
            p1 = t;
        }
        if p0.y > p2.y {
            let t = p0;
            p0 = p2;
            p2 = t;
        }
        if p1.y > p2.y {
            let t = p1;
            p1 = p2;
            p2 = t;
        }
        proof {
            assert(p0 == s0 && p1 == s1 && p2 == s2);
        }
        let th: i64 = p2.y as i64 - p0.y as i64;
        let mut i: i64 = 0;
        while i < th
            invariant
                self.wf(),
                zbuf.wf(),
                self.width == old(self).width,
                self.height == old(self).height,
                self.bytespp == old(self).bytespp,
                zbuf.width == old(zbuf).width,
                zbuf.height == old(zbuf).height,
                zbuf.width == self.width,
                zbuf.height == self.height,
                s0 == tri_sort(t0, t1, t2).0,
                s1 == tri_sort(t0, t1, t2).1,
                s2 == tri_sort(t0, t1, t2).2,
                p0 == s0,
                p1 == s1,
                p2 == s2,
                p0.y <= p1.y <= p2.y,
                th == p2.y - p0.y,
                1 <= th,
                0 <= i <= th,
                0 <= p0.x && (p0.x as int) < self.width,
                0 <= p0.y && (p0.y as int) < self.height,
                0 <= p1.x && (p1.x as int) < self.width,
                0 <= p1.y && (p1.y as int) < self.height,
                0 <= p2.x && (p2.x as int) < self.width,
                0 <= p2.y && (p2.y as int) < self.height,
                forall|a: int, b: int|
                    0 <= a < old(self).width && 0 <= b < old(self).height && tri_covered(
                        t0,
                        t1,
                        t2,
                        a,
                        b,
                    ) && b - p0.y < i && tri_depth(t0, t1, t2, a, b) > old(zbuf).at(a, b)
                        ==> #[trigger] zbuf.at(a, b) == tri_depth(t0, t1, t2, a, b) && self.pixel(
                        a,
                        b,
                    ) == color_bytes(*c, old(self).bytespp as int),
                forall|a: int, b: int|
                    0 <= a < old(self).width && 0 <= b < old(self).height && !(tri_covered(
                        t0,
                        t1,
                        t2,
                        a,
                        b,
                    ) && b - p0.y < i && tri_depth(t0, t1, t2, a, b) > old(zbuf).at(a, b))
                        ==> #[trigger] zbuf.at(a, b) == old(zbuf).at(a, b) && self.pixel(a, b)
                        == old(self).pixel(a, b),
            decreases th - i,
        {
            let dlow: i64 = p1.y as i64 - p0.y as i64;
            let second_half = i > dlow || p1.y == p0.y;
            let seg: i64 = if second_half {
                p2.y as i64 - p1.y as i64
            } else {
                dlow
            };
            proof {
                assert(1 <= seg);
                assert(second_half == tri_upper(s0, s1, s2, i as int));
                assert(seg as int == tri_seg(s0, s1, s2, i as int));
            }
            let ax = interp(p0.x as i64, p2.x as i64, i, th);
            let az = interp(p0.z as i64, p2.z as i64, i, th);
            let bnum: i64 = if second_half {
                i - dlow
            } else {
                i
            };
            proof {
                assert(0 <= bnum <= seg);
            }
            let bx = if second_half {
                interp(p1.x as i64, p2.x as i64, bnum, seg)
            } else {
                interp(p0.x as i64, p1.x as i64, bnum, seg)
            };
            let bz = if second_half {
                interp(p1.z as i64, p2.z as i64, bnum, seg)
            } else {
                interp(p0.z as i64, p1.z as i64, bnum, seg)
            };
            proof {
                assert(ax as int == tri_ax(s0, s1, s2, i as int));
                assert(az as int == tri_az(s0, s1, s2, i as int));
                assert(bx as int == tri_bx(s0, s1, s2, i as int));
                assert(bz as int == tri_bz(s0, s1, s2, i as int));
            }
            let ax2 = if ax > bx {
                bx
            } else {
                ax
            };
            let az2 = if ax > bx {
                bz
            } else {
                az
            };
            let bx2 = if ax > bx {
                ax
            } else {
                bx
            };
            let bz2 = if ax > bx {
                az
            } else {
                bz
            };
            let row = p0.y as i64 + i;
            proof {
                assert(ax2 as int == tri_left(s0, s1, s2, i as int));
                assert(bx2 as int == tri_right(s0, s1, s2, i as int));
                assert(az2 as int == tri_lz(s0, s1, s2, i as int));
                assert(bz2 as int == tri_rz(s0, s1, s2, i as int));
                assert forall|a: int, b: int|
                    tri_covered(t0, t1, t2, a, b) && b - p0.y == i implies ax2 <= a < bx2 by {
                    assert(b - tri_sort(t0, t1, t2).0.y == i as int);
                    assert(tri_left(s0, s1, s2, i as int) <= a < tri_right(s0, s1, s2, i as int));
                }
            }
            let mut j = ax2;
            while j < bx2
                invariant
                    self.wf(),
                    zbuf.wf(),
                    self.width == old(self).width,
                    self.height == old(self).height,
                    self.bytespp == old(self).bytespp,
                    zbuf.width == old(zbuf).width,
                    zbuf.height == old(zbuf).height,
                    zbuf.width == self.width,
                    zbuf.height == self.height,
                    s0 == tri_sort(t0, t1, t2).0,
                    s1 == tri_sort(t0, t1, t2).1,
                    s2 == tri_sort(t0, t1, t2).2,
                    p0 == s0,
                    p1 == s1,
                    p2 == s2,
                    th == p2.y - p0.y,
                    0 <= i < th,
                    row == p0.y + i,
                    0 <= row && (row as int) < self.height,
                    ax2 as int == tri_left(s0, s1, s2, i as int),
                    bx2 as int == tri_right(s0, s1, s2, i as int),
                    az2 as int == tri_lz(s0, s1, s2, i as int),
                    bz2 as int == tri_rz(s0, s1, s2, i as int),
                    0 <= ax2 <= j,
                    j <= bx2,
                    bx2 <= 0x7fff_ffff,
                    (bx2 as int) < self.width,
                    -0x8000_0000 <= az2 <= 0x7fff_ffff,
                    -0x8000_0000 <= bz2 <= 0x7fff_ffff,
                    forall|a: int, b: int|
                        0 <= a < old(self).width && 0 <= b < old(self).height && tri_covered(
                            t0,
                            t1,
                            t2,
                            a,
                            b,
                        ) && (b - p0.y < i || (b - p0.y == i && a < j)) && tri_depth(t0, t1, t2, a, b)
                            > old(zbuf).at(a, b) ==> #[trigger] zbuf.at(a, b) == tri_depth(
                            t0,
                            t1,
                            t2,
                            a,
                            b,
                        ) && self.pixel(a, b) == color_bytes(*c, old(self).bytespp as int),
                    forall|a: int, b: int|
                        0 <= a < old(self).width && 0 <= b < old(self).height && !(tri_covered(
                            t0,
                            t1,
                            t2,
                            a,
                            b,
                        ) && (b - p0.y < i || (b - p0.y == i && a < j)) && tri_depth(t0, t1, t2, a, b)
                            > old(zbuf).at(a, b)) ==> #[trigger] zbuf.at(a, b) == old(zbuf).at(a, b)
                            && self.pixel(a, b) == old(self).pixel(a, b),
                decreases bx2 - j,
            {
                let z64 = interp(az2, bz2, j - ax2, bx2 - ax2);
                let z = z64 as i32;
                let ghost zbuf_prev = *zbuf;
                let ghost self_prev = *self;
                proof {
                    assert(tri_covered(t0, t1, t2, j as int, row as int));
                    assert(z as int == tri_depth(t0, t1, t2, j as int, row as int));
                    assert(zbuf_prev.at(j as int, row as int) == old(zbuf).at(
                        j as int,
                        row as int,
                    ));
                    assert(self_prev.pixel(j as int, row as int) == old(self).pixel(
                        j as int,
                        row as int,
                    ));
                }
                self.plot_depth(zbuf, j as usize, row as usize, z, c);
                proof {
                    let w = old(self).width as int;
                    let h = old(self).height as int;
                    if z > zbuf_prev.at(j as int, row as int) {
                        assert(zbuf.at(j as int, row as int) == z);
                        assert(self.pixel(j as int, row as int) == color_bytes(
                            *c,
                            old(self).bytespp as int,
                        ));
                    } else {
                        assert(zbuf.data@ == zbuf_prev.data@ && self.data@ == self_prev.data@);
                    }
                    assert forall|a: int, b: int|
                        0 <= a < w && 0 <= b < h && tri_covered(t0, t1, t2, a, b) && (b - p0.y < i
                            || (b - p0.y == i && a < j + 1)) && tri_depth(t0, t1, t2, a, b) > old(
                            zbuf,
                        ).at(a, b) implies #[trigger] zbuf.at(a, b) == tri_depth(t0, t1, t2, a, b)
                        && self.pixel(a, b) == color_bytes(*c, old(self).bytespp as int) by {
                        if a == j as int && b == row as int {
                        } else {
                            assert(zbuf.at(a, b) == zbuf_prev.at(a, b));
                            assert(self.pixel(a, b) == self_prev.pixel(a, b));
                        }
                    }
                    assert forall|a: int, b: int|
                        0 <= a < w && 0 <= b < h && !(tri_covered(t0, t1, t2, a, b) && (b - p0.y
                            < i || (b - p0.y == i && a < j + 1)) && tri_depth(t0, t1, t2, a, b)
                            > old(zbuf).at(a, b)) implies #[trigger] zbuf.at(a, b) == old(zbuf).at(
                        a,
                        b,
                    ) && self.pixel(a, b) == old(self).pixel(a, b) by {
                        if a == j as int && b == row as int {
                            assert(zbuf.at(a, b) == zbuf_prev.at(a, b));
                            assert(self.pixel(a, b) == self_prev.pixel(a, b));
                        } else {
                            assert(zbuf.at(a, b) == zbuf_prev.at(a, b));
                            assert(self.pixel(a, b) == self_prev.pixel(a, b));
                        }
                    }
                }
                j = j + 1;
            }
            proof {
                assert forall|a: int, b: int|
                    0 <= a < old(self).width && 0 <= b < old(self).height && !(tri_covered(
                        t0,
                        t1,
                        t2,
                        a,
                        b,
                    ) && b - p0.y < i + 1 && tri_depth(t0, t1, t2, a, b) > old(zbuf).at(a, b))
                        implies #[trigger] zbuf.at(a, b) == old(zbuf).at(a, b) && self.pixel(a, b)
                    == old(self).pixel(a, b) by {
                    assert(!(tri_covered(t0, t1, t2, a, b) && (b - p0.y < i || (b - p0.y == i && a
                        < j)) && tri_depth(t0, t1, t2, a, b) > old(zbuf).at(a, b)));
                    assert(zbuf.at(a, b) == old(zbuf).at(a, b));
                    assert(self.pixel(a, b) == old(self).pixel(a, b));
                }
            }
            i = i + 1;
        }
        proof {
            assert forall|x: int, y: int|
                0 <= x < old(self).width && 0 <= y < old(self).height && tri_covered(t0, t1, t2, x, y)
                    && tri_depth(t0, t1, t2, x, y) > old(zbuf).at(x, y) implies #[trigger] zbuf.at(
                x,
                y,
            ) == tri_depth(t0, t1, t2, x, y) && self.pixel(x, y) == color_bytes(
                *c,
                old(self).bytespp as int,
            ) by {
                assert(0 <= y - tri_sort(t0, t1, t2).0.y < tri_sort(t0, t1, t2).2.y - tri_sort(
                    t0,
                    t1,
                    t2,
                ).0.y);
                assert(y - p0.y < i);
                assert(zbuf.at(x, y) == tri_depth(t0, t1, t2, x, y));
                assert(self.pixel(x, y) == color_bytes(*c, old(self).bytespp as int));
            }
            assert forall|x: int, y: int|
                0 <= x < old(self).width && 0 <= y < old(self).height && !(tri_covered(
                    t0,
                    t1,
                    t2,
                    x,
                    y,
                ) && tri_depth(t0, t1, t2, x, y) > old(zbuf).at(x, y)) implies #[trigger] zbuf.at(
                x,
                y,
            ) == old(zbuf).at(x, y) && self.pixel(x, y) == old(self).pixel(x, y) by {
                assert(!(tri_covered(t0, t1, t2, x, y) && y - p0.y < i && tri_depth(t0, t1, t2, x, y)
                    > old(zbuf).at(x, y)));
                assert(zbuf.at(x, y) == old(zbuf).at(x, y));
                assert(self.pixel(x, y) == old(self).pixel(x, y));
            }
            assert forall|x: int, y: int|
                0 <= x < old(self).width && 0 <= y < old(self).height implies #[trigger] zbuf.at(
                x,
                y,
            ) >= old(zbuf).at(x, y) by {
                if tri_covered(t0, t1, t2, x, y) && tri_depth(t0, t1, t2, x, y) > old(zbuf).at(
                    x,
                    y,
                ) {
                    assert(zbuf.at(x, y) == tri_depth(t0, t1, t2, x, y));
                } else {
                    assert(zbuf.at(x, y) == old(zbuf).at(x, y));
                }
            }
            assert(triangle_post(t0, t1, t2, *c, *old(zbuf), *old(self), *zbuf, *self));
        }
    }
}

/// What one depth-tested fill leaves at a single pixel, as the
/// triangle's contract states it: the interpolated depth and the fill
/// sample where the triangle covers the pixel and wins the depth test,
/// the stored pair otherwise.
pub open spec fn tri_apply(
    t0: Vec3,
    t1: Vec3,
    t2: Vec3,
    col: Seq<u8>,
    x: int,
    y: int,
    depth: int,
    sample: Seq<u8>,
) -> (int, Seq<u8>) {
    if tri_covered(t0, t1, t2, x, y) && tri_depth(t0, t1, t2, x, y) > depth {
        (tri_depth(t0, t1, t2, x, y), col)
    } else {
        (depth, sample)
    }
}

/// A triangle whose three vertices share one depth interpolates exactly
/// that depth at every pixel it covers.
pub proof fn lemma_tri_depth_constant(t0: Vec3, t1: Vec3, t2: Vec3, x: int, y: int)
    requires
        t0.z == t1.z && t1.z == t2.z,
        tri_covered(t0, t1, t2, x, y),
    ensures
        tri_depth(t0, t1, t2, x, y) == t0.z,
{
    let s = tri_sort(t0, t1, t2);
    let i = y - s.0.y;
    assert(s.0.z == t0.z && s.1.z == t0.z && s.2.z == t0.z);
    let th = s.2.y - s.0.y;
    let seg = tri_seg(s.0, s.1, s.2, i);
    assert(s.0.y <= s.1.y <= s.2.y);
    assert(th >= 1);
    assert(seg >= 1);
    vstd::arithmetic::div_mod::lemma_fundamental_div_mod_converse_div(0, th, 0, 0);
    vstd::arithmetic::div_mod::lemma_fundamental_div_mod_converse_div(0, seg, 0, 0);
    assert(tri_az(s.0, s.1, s.2, i) == t0.z as int);
    assert(tri_bz(s.0, s.1, s.2, i) == t0.z as int);
    let den = tri_right(s.0, s.1, s.2, i) - tri_left(s.0, s.1, s.2, i);
    assert(den >= 1);
    vstd::arithmetic::div_mod::lemma_fundamental_div_mod_converse_div(0, den, 0, 0);
}

/// Drawing two triangles of distinct constant depths leaves any pixel
/// the same whichever is drawn first, and where both cover the pixel
/// and the greater depth beats the stored one, the nearer triangle's
/// sample and depth win: depth alone decides visibility, independent of
/// draw order.
pub proof fn lemma_triangle_order_independent(
    a0: Vec3,
    a1: Vec3,
    a2: Vec3,
    ca: Seq<u8>,
    b0: Vec3,
    b1: Vec3,
    b2: Vec3,
    cb: Seq<u8>,
    x: int,
    y: int,
    depth: int,
    sample: Seq<u8>,
)
    requires
        a0.z == a1.z && a1.z == a2.z,
        b0.z == b1.z && b1.z == b2.z,
        a0.z != b0.z,
    ensures
        ({
            let fa = tri_apply(a0, a1, a2, ca, x, y, depth, sample);
            let ab = tri_apply(b0, b1, b2, cb, x, y, fa.0, fa.1);
            let fb = tri_apply(b0, b1, b2, cb, x, y, depth, sample);
            let ba = tri_apply(a0, a1, a2, ca, x, y, fb.0, fb.1);
            ab == ba
        }),
        tri_covered(a0, a1, a2, x, y) && tri_covered(b0, b1, b2, x, y) && b0.z > a0.z && b0.z
            > depth ==> ({
            let fa = tri_apply(a0, a1, a2, ca, x, y, depth, sample);
            let ab = tri_apply(b0, b1, b2, cb, x, y, fa.0, fa.1);
            ab == (b0.z as int, cb)
        }),
{
    if tri_covered(a0, a1, a2, x, y) {
        lemma_tri_depth_constant(a0, a1, a2, x, y);
    }
    if tri_covered(b0, b1, b2, x, y) {
        lemma_tri_depth_constant(b0, b1, b2, x, y);
    }
}

} // verus!
