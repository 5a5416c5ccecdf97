//! The secret-sharing core: the 2x2 bit-tile codec, the random share
//! generator, the encoder and the recoverer.

use rand::Rng;
use vstd::prelude::*;
use vstd::arithmetic::div_mod::{lemma_fundamental_div_mod, lemma_mod_multiples_basic};

use crate::grid::{
    binary_grid, cipher_tile, encodes, grid_width, inv_bit, is_bit, is_grid,
    lemma_deep_view_cells, lemma_tiled_grid_binary, recovers, share_tile, tiled_grid,
    tiles_equal, uniform_tile, xor_bit,
};

verus! {

/// The capability of a cell value to produce its complement.
pub trait Inverser: Sized {
    type Output;

    /// What `inverse` returns.
    spec fn inverse_spec(self) -> Self::Output;

    /// The complementary value; total, with no failure mode.
    fn inverse(self) -> (r: Self::Output)
        ensures
            r == self.inverse_spec(),
    ;
}

impl Inverser for u8 {
    type Output = u8;

    open spec fn inverse_spec(self) -> u8 {
        inv_bit(self)
    }

    fn inverse(self) -> u8 {
        match self {
            0 => 1,
            _ => 0,
        }
    }
}

/// The capability to draw one random cell value.
pub trait RandomGenerator: Sized {
    type Output;

    /// What holds of every drawn value.
    spec fn random_valid(r: Self::Output) -> bool;

    /// Draws one value; nothing beyond `random_valid` can be said of it,
    /// and two draws need not agree.
    fn random() -> (r: Self::Output)
        ensures
            Self::random_valid(r),
    ;
}

/// Relies on rand::Rng::gen_range over the inclusive range 0..=1: the drawn
/// value lies in the range, and the range is not empty, so the call does not
/// panic.
#[verifier::external_body]
fn random_bit() -> (r: u8)
    ensures
        is_bit(r),
{
    let mut rng = rand::thread_rng();
    rng.gen_range(0..=1)
}

impl RandomGenerator for u8 {
    type Output = u8;

    open spec fn random_valid(r: u8) -> bool {
        is_bit(r)
    }

    fn random() -> (r: u8) {
        random_bit()
    }
}

/// Writes the 2x2 block with top-left cell (i, j) as
/// [[leading, following], [following, leading]]; no other cell changes.
/// This is the only operation that ever writes into an encoded grid.
fn set_tile(a: &mut Vec<Vec<u8>>, i: usize, j: usize, leading: u8, following: u8)
    requires
        i + 1 < old(a)@.len(),
        j + 1 < old(a)@[i as int]@.len(),
        j + 1 < old(a)@[i as int + 1]@.len(),
    ensures
        final(a)@.len() == old(a)@.len(),
        forall|r: int|
            0 <= r < old(a)@.len() && r != i && r != i + 1 ==> #[trigger] final(a)@[r]
                == old(a)@[r],
        final(a)@[i as int]@ == old(a)@[i as int]@.update(j as int, leading).update(
            j as int + 1,
            following,
        ),
        final(a)@[i as int + 1]@ == old(a)@[i as int + 1]@.update(j as int, following).update(
            j as int + 1,
            leading,
        ),
{
    let _h = a.len();
    let i1 = i + 1;
    let _w0 = a[i].len();
    let _w1 = a[i1].len();
    let j1 = j + 1;
    a[i][j] = leading;
    a[i][j1] = following;
    a[i1][j] = following;
    a[i1][j1] = leading;
}

/// Produces a share grid of the requested encoded-resolution dimensions:
/// every 2x2 tile carries an independently drawn random leading bit on its
/// main diagonal and the complementary bit on its anti-diagonal. No source
/// data is read, so the grid alone carries no information about any image it
/// is later combined with.
pub fn random(width: usize, height: usize) -> (r: Vec<Vec<u8>>)
    requires
        width % 2 == 0,
        height % 2 == 0,
    ensures
        is_grid(r.deep_view(), height as int, width as int),
        tiled_grid(r.deep_view(), height as int / 2, width as int / 2),
        2 * (height as int / 2) == height as int,
        2 * (width as int / 2) == width as int,
        binary_grid(r.deep_view()),
{
    let mut c = crate::img::create_grid(width, height);
    proof {
        lemma_deep_view_cells(c);
        assert forall|r: int| 0 <= r < height implies (#[trigger] c@[r])@.len() == width by {
            assert(c.deep_view()[r].len() == width);
        }
    }
    let mut i: usize = 0;
    while i < height
        invariant
            i <= height,
            i % 2 == 0,
            height % 2 == 0,
            width % 2 == 0,
            c@.len() == height,
            forall|r: int| 0 <= r < height ==> (#[trigger] c@[r])@.len() == width,
            forall|x: int, y: int|
                0 <= x < i && 0 <= y < width && x % 2 == 0 && y % 2 == 0 ==> {
                    &&& is_bit(#[trigger] c@[x]@[y])
                    &&& c@[x]@[y + 1] == inv_bit(c@[x]@[y])
                    &&& c@[x + 1]@[y] == inv_bit(c@[x]@[y])
                    &&& c@[x + 1]@[y + 1] == c@[x]@[y]
                },
        decreases height - i,
    {
        let mut j: usize = 0;
        while j < width
            invariant
                i < height,
                i % 2 == 0,
                height % 2 == 0,
                width % 2 == 0,
                j <= width,
                j % 2 == 0,
                c@.len() == height,
                forall|r: int| 0 <= r < height ==> (#[trigger] c@[r])@.len() == width,
                forall|x: int, y: int|
                    0 <= x < i && 0 <= y < width && x % 2 == 0 && y % 2 == 0 ==> {
                        &&& is_bit(#[trigger] c@[x]@[y])
                        &&& c@[x]@[y + 1] == inv_bit(c@[x]@[y])
                        &&& c@[x + 1]@[y] == inv_bit(c@[x]@[y])
                        &&& c@[x + 1]@[y + 1] == c@[x]@[y]
                    },
                forall|y: int|
                    0 <= y < j && y % 2 == 0 ==> {
                        &&& is_bit(#[trigger] c@[i as int]@[y])
                        &&& c@[i as int]@[y + 1] == inv_bit(c@[i as int]@[y])
                        &&& c@[i as int + 1]@[y] == inv_bit(c@[i as int]@[y])
                        &&& c@[i as int + 1]@[y + 1] == c@[i as int]@[y]
                    },
            decreases width - j,
        {
            let leading = u8::random();
            let following = leading.inverse();
            set_tile(&mut c, i, j, leading, following);
            j = j + 2;
        }
        i = i + 2;
    }
    proof {
        lemma_deep_view_cells(c);
        let dv = c.deep_view();
        let th = height as int / 2;
        let tw = width as int / 2;
        lemma_fundamental_div_mod(height as int, 2);
        lemma_fundamental_div_mod(width as int, 2);
        assert forall|a: int, b: int|
            0 <= a < th && 0 <= b < tw implies #[trigger] share_tile(dv, a, b) by {
            let x = 2 * a;
            let y = 2 * b;
            lemma_mod_multiples_basic(a, 2);
            lemma_mod_multiples_basic(b, 2);
            assert(is_bit(c@[x]@[y]));
            assert(dv[x][y] == c@[x]@[y]);
            assert(dv[x][y + 1] == c@[x]@[y + 1]);
            assert(dv[x + 1][y] == c@[x + 1]@[y]);
            assert(dv[x + 1][y + 1] == c@[x + 1]@[y + 1]);
        }
        lemma_tiled_grid_binary(dv, th, tw);
    }
    c
}

/// Combines a source-resolution bit grid `a` with an encoded-resolution
/// share grid `b` into the cipher grid: for each source cell, the matching
/// 2x2 tile of the result leads with 0 where the source bit agrees with the
/// leading bit of the share's tile and with 1 where it differs. The share's
/// dimensions must be exactly double the source's in each axis.
pub fn ciphered(a: &Vec<Vec<u8>>, b: &Vec<Vec<u8>>) -> (c: Vec<Vec<u8>>)
    requires
        is_grid(a.deep_view(), a@.len() as int, grid_width(a.deep_view())),
        is_grid(b.deep_view(), 2 * a@.len() as int, 2 * grid_width(a.deep_view())),
    ensures
        is_grid(c.deep_view(), 2 * a@.len() as int, 2 * grid_width(a.deep_view())),
        tiled_grid(c.deep_view(), a@.len() as int, grid_width(a.deep_view())),
        binary_grid(c.deep_view()),
        encodes(a.deep_view(), b.deep_view(), c.deep_view()),
{
    proof {
        lemma_deep_view_cells(*a);
        lemma_deep_view_cells(*b);
        lemma_mod_multiples_basic(a@.len() as int, 2);
        lemma_mod_multiples_basic(grid_width(a.deep_view()), 2);
        assert forall|r: int|
            0 <= r < a@.len() implies (#[trigger] a@[r])@.len() == grid_width(a.deep_view()) by {
            assert(a.deep_view()[r].len() == grid_width(a.deep_view()));
        }
        assert forall|r: int|
            0 <= r < b@.len() implies (#[trigger] b@[r])@.len() == 2 * grid_width(
            a.deep_view(),
        ) by {
            assert(b.deep_view()[r].len() == 2 * grid_width(a.deep_view()));
        }
    }
    let h = a.len();
    let w = if h == 0 {
        0
    } else {
        a[0].len()
    };
    let eh = b.len();
    let ew = if eh == 0 {
        0
    } else {
        b[0].len()
    };
    let mut c = crate::img::create_grid(ew, eh);
    proof {
        lemma_deep_view_cells(c);
        assert forall|r: int| 0 <= r < eh implies (#[trigger] c@[r])@.len() == ew by {
            assert(c.deep_view()[r].len() == ew);
        }
    }
    let mut i: usize = 0;
    while i < eh
        invariant
            i <= eh,
            i % 2 == 0,
            eh % 2 == 0,
            ew % 2 == 0,
            eh == 2 * h,
            ew == 2 * w,
            a@.len() == h,
            forall|r: int| 0 <= r < h ==> (#[trigger] a@[r])@.len() == w,
            b@.len() == eh,
            forall|r: int| 0 <= r < eh ==> (#[trigger] b@[r])@.len() == ew,
            c@.len() == eh,
            forall|r: int| 0 <= r < eh ==> (#[trigger] c@[r])@.len() == ew,
            forall|x: int, y: int|
                0 <= x < i && 0 <= y < ew && x % 2 == 0 && y % 2 == 0 ==> {
                    &&& #[trigger] c@[x]@[y] == xor_bit(a@[x / 2]@[y / 2], b@[x]@[y])
                    &&& c@[x]@[y + 1] == inv_bit(c@[x]@[y])
                    &&& c@[x + 1]@[y] == inv_bit(c@[x]@[y])
                    &&& c@[x + 1]@[y + 1] == c@[x]@[y]
                },
        decreases eh - i,
    {
        let mut j: usize = 0;
        while j < ew
            invariant
                i < eh,
                i % 2 == 0,
                eh % 2 == 0,
                ew % 2 == 0,
                eh == 2 * h,
                ew == 2 * w,
                j <= ew,
                j % 2 == 0,
                a@.len() == h,
                forall|r: int| 0 <= r < h ==> (#[trigger] a@[r])@.len() == w,
                b@.len() == eh,
                forall|r: int| 0 <= r < eh ==> (#[trigger] b@[r])@.len() == ew,
                c@.len() == eh,
                forall|r: int| 0 <= r < eh ==> (#[trigger] c@[r])@.len() == ew,
                forall|x: int, y: int|
                    0 <= x < i && 0 <= y < ew && x % 2 == 0 && y % 2 == 0 ==> {
                        &&& #[trigger] c@[x]@[y] == xor_bit(a@[x / 2]@[y / 2], b@[x]@[y])
                        &&& c@[x]@[y + 1] == inv_bit(c@[x]@[y])
                        &&& c@[x + 1]@[y] == inv_bit(c@[x]@[y])
                        &&& c@[x + 1]@[y + 1] == c@[x]@[y]
                    },
                forall|y: int|
                    0 <= y < j && y % 2 == 0 ==> {
                        &&& #[trigger] c@[i as int]@[y] == xor_bit(
                            a@[i as int / 2]@[y / 2],
                            b@[i as int]@[y],
                        )
                        &&& c@[i as int]@[y + 1] == inv_bit(c@[i as int]@[y])
                        &&& c@[i as int + 1]@[y] == inv_bit(c@[i as int]@[y])
                        &&& c@[i as int + 1]@[y + 1] == c@[i as int]@[y]
                    },
            decreases ew - j,
        {
            let first = a[i / 2][j / 2];
            let second = b[i][j];
            let leading: u8 = if first == second {
                0
            } else {
                1
            };
            let following = leading.inverse();
            set_tile(&mut c, i, j, leading, following);
            j = j + 2;
        }
        i = i + 2;
    }
    proof {
        lemma_deep_view_cells(*a);
        lemma_deep_view_cells(*b);
        lemma_deep_view_cells(c);
        let av = a.deep_view();
        let bv = b.deep_view();
        let dv = c.deep_view();
        assert forall|ti: int, tj: int|
            0 <= ti < h && 0 <= tj < w implies #[trigger] cipher_tile(av, bv, dv, ti, tj) by {
            let x = 2 * ti;
            let y = 2 * tj;
            lemma_mod_multiples_basic(ti, 2);
            lemma_mod_multiples_basic(tj, 2);
            vstd::arithmetic::div_mod::lemma_div_multiples_vanish(ti, 2);
            vstd::arithmetic::div_mod::lemma_div_multiples_vanish(tj, 2);
            assert(c@[x]@[y] == xor_bit(a@[x / 2]@[y / 2], b@[x]@[y]));
            assert(av[ti][tj] == a@[ti]@[tj]);
            assert(bv[x][y] == b@[x]@[y]);
            assert(dv[x][y] == c@[x]@[y]);
            assert(dv[x][y + 1] == c@[x]@[y + 1]);
            assert(dv[x + 1][y] == c@[x + 1]@[y]);
            assert(dv[x + 1][y + 1] == c@[x + 1]@[y + 1]);
        }
        assert forall|ti: int, tj: int|
            0 <= ti < h && 0 <= tj < w implies #[trigger] share_tile(dv, ti, tj) by {
            assert(cipher_tile(av, bv, dv, ti, tj));
        }
        lemma_tiled_grid_binary(dv, h as int, w as int);
    }
    c
}

/// Combines two encoded bit grids of identical dimensions cell by cell:
/// the result holds 0 where the grids agree and 1 where they differ.
/// Mismatched dimensions or non-binary cells are rejected by contract,
/// never silently truncated or reinterpreted.
pub fn recover(a: &Vec<Vec<u8>>, b: &Vec<Vec<u8>>) -> (c: Vec<Vec<u8>>)
    requires
        a@.len() == b@.len(),
        forall|i: int|
            0 <= i < a@.len() ==> (#[trigger] a.deep_view()[i]).len() == b.deep_view()[i].len(),
        binary_grid(a.deep_view()),
        binary_grid(b.deep_view()),
    ensures
        recovers(a.deep_view(), b.deep_view(), c.deep_view()),
{
    proof {
        lemma_deep_view_cells(*a);
        lemma_deep_view_cells(*b);
        assert forall|i: int|
            0 <= i < a@.len() implies (#[trigger] a@[i])@.len() == b@[i]@.len() by {
            assert(a.deep_view()[i].len() == b.deep_view()[i].len());
        }
    }
    let n = a.len();
    let mut c: Vec<Vec<u8>> = Vec::new();
    let mut i: usize = 0;
    while i < n
        invariant
            i <= n,
            n == a@.len(),
            a@.len() == b@.len(),
            forall|r: int| 0 <= r < n ==> (#[trigger] a@[r])@.len() == b@[r]@.len(),
            binary_grid(a.deep_view()),
            binary_grid(b.deep_view()),
            c@.len() == i,
            forall|r: int| 0 <= r < i ==> (#[trigger] c@[r])@.len() == a@[r]@.len(),
            forall|x: int, y: int|
                0 <= x < i && 0 <= y < a@[x]@.len() ==> #[trigger] c@[x]@[y] == xor_bit(
                    a@[x]@[y],
                    b@[x]@[y],
                ),
        decreases n - i,
    {
        let m = a[i].len();
        let mut row: Vec<u8> = Vec::new();
        let mut j: usize = 0;
        while j < m
            invariant
                i < n,
                n == a@.len(),
                a@.len() == b@.len(),
                m == a@[i as int]@.len(),
                forall|r: int| 0 <= r < n ==> (#[trigger] a@[r])@.len() == b@[r]@.len(),
                binary_grid(a.deep_view()),
                binary_grid(b.deep_view()),
                j <= m,
                row@.len() == j,
                forall|y: int|
                    0 <= y < j ==> #[trigger] row@[y] == xor_bit(
                        a@[i as int]@[y],
                        b@[i as int]@[y],
                    ),
            decreases m - j,
        {
            let av = a[i][j];
            let bv = b[i][j];
            proof {
                lemma_deep_view_cells(*a);
                lemma_deep_view_cells(*b);
                assert(is_bit(a.deep_view()[i as int][j as int]));
                assert(is_bit(b.deep_view()[i as int][j as int]));
                assert((av ^ bv) == (if av == bv {
                    0u8
                } else {
                    1u8
                })) by (bit_vector)
                    requires
                        (av == 0 || av == 1) && (bv == 0 || bv == 1),
                ;
            }
            row.push(av ^ bv);
            j = j + 1;
        }
        c.push(row);
        i = i + 1;
    }
    proof {
        lemma_deep_view_cells(*a);
        lemma_deep_view_cells(*b);
        lemma_deep_view_cells(c);
        let av = a.deep_view();
        let bv = b.deep_view();
        let cv = c.deep_view();
        assert forall|x: int| 0 <= x < av.len() implies (#[trigger] cv[x]).len() == av[x].len() by {
            assert(c@[x]@.len() == a@[x]@.len());
        }
        assert forall|x: int, y: int|
            0 <= x < av.len() && 0 <= y < av[x].len() implies #[trigger] cv[x][y] == xor_bit(
            av[x][y],
            bv[x][y],
        ) by {
            assert(c@[x]@[y] == xor_bit(a@[x]@[y], b@[x]@[y]));
            assert(cv[x][y] == c@[x]@[y]);
            assert(av[x][y] == a@[x]@[y]);
            assert(bv[x][y] == b@[x]@[y]);
        }
    }
    c
}

/// Recovering a cipher with the share that produced it yields, for every
/// source cell, a uniform 2x2 block holding exactly the source bit: the
/// recovered grid is the source image at doubled resolution. In particular,
/// within every recovered block the two main-diagonal cells agree and the
/// two anti-diagonal cells agree.
pub proof fn lemma_recover_inverts_encode(
    s: Seq<Seq<u8>>,
    r: Seq<Seq<u8>>,
    c: Seq<Seq<u8>>,
    v: Seq<Seq<u8>>,
    h: int,
    w: int,
)
    requires
        is_grid(s, h, w),
        binary_grid(s),
        tiled_grid(r, h, w),
        is_grid(c, 2 * h, 2 * w),
        encodes(s, r, c),
        recovers(c, r, v),
    ensures
        forall|ti: int, tj: int|
            0 <= ti < h && 0 <= tj < w ==> #[trigger] uniform_tile(v, ti, tj, s[ti][tj]),
{
    assert forall|ti: int, tj: int|
        0 <= ti < h && 0 <= tj < w implies #[trigger] uniform_tile(v, ti, tj, s[ti][tj]) by {
        let x = 2 * ti;
        let y = 2 * tj;
        assert(grid_width(s) == w) by {
            assert(s[0].len() == w);
        }
        assert(cipher_tile(s, r, c, ti, tj));
        assert(share_tile(r, ti, tj));
        assert(is_bit(s[ti][tj]));
        assert(c[x].len() == 2 * w);
        assert(v[x][y] == xor_bit(c[x][y], r[x][y]));
        assert(v[x][y + 1] == xor_bit(c[x][y + 1], r[x][y + 1]));
        assert(v[x + 1][y] == xor_bit(c[x + 1][y], r[x + 1][y]));
        assert(v[x + 1][y + 1] == xor_bit(c[x + 1][y + 1], r[x + 1][y + 1]));
    }
}

/// Two encodings against the same share produce cipher grids whose tiles are
/// equal exactly where the source bits are equal: a cipher differs only
/// where the sources differ, and the share alone fixes nothing about either
/// source.
pub proof fn lemma_ciphers_differ_as_sources(
    s1: Seq<Seq<u8>>,
    s2: Seq<Seq<u8>>,
    r: Seq<Seq<u8>>,
    c1: Seq<Seq<u8>>,
    c2: Seq<Seq<u8>>,
    h: int,
    w: int,
)
    requires
        is_grid(s1, h, w),
        is_grid(s2, h, w),
        binary_grid(s1),
        binary_grid(s2),
        tiled_grid(r, h, w),
        encodes(s1, r, c1),
        encodes(s2, r, c2),
    ensures
        forall|ti: int, tj: int|
            0 <= ti < h && 0 <= tj < w ==> ((s1[ti][tj] == s2[ti][tj]) <==> #[trigger] tiles_equal(
                c1,
                c2,
                ti,
                tj,
            )),
{
    assert forall|ti: int, tj: int|
        0 <= ti < h && 0 <= tj < w implies ((s1[ti][tj] == s2[ti][tj]) <==> #[trigger] tiles_equal(
        c1,
        c2,
        ti,
        tj,
    )) by {
        assert(grid_width(s1) == w) by {
            assert(s1[0].len() == w);
        }
        assert(grid_width(s2) == w) by {
            assert(s2[0].len() == w);
        }
        assert(cipher_tile(s1, r, c1, ti, tj));
        assert(cipher_tile(s2, r, c2, ti, tj));
        assert(share_tile(r, ti, tj));
        assert(is_bit(s1[ti][tj]));
        assert(is_bit(s2[ti][tj]));
    }
}

/// Recovery is symmetric: combining grid A with grid B gives the same grid
/// as combining B with A.
pub proof fn lemma_recover_commutes(
    a: Seq<Seq<u8>>,
    b: Seq<Seq<u8>>,
    vab: Seq<Seq<u8>>,
    vba: Seq<Seq<u8>>,
)
    requires
        a.len() == b.len(),
        forall|i: int| 0 <= i < a.len() ==> (#[trigger] a[i]).len() == b[i].len(),
        recovers(a, b, vab),
        recovers(b, a, vba),
    ensures
        vab == vba,
{
    assert forall|i: int| 0 <= i < vab.len() implies #[trigger] vab[i] == vba[i] by {
        assert(vab[i].len() == a[i].len());
        assert(vba[i].len() == b[i].len());
        assert forall|j: int| 0 <= j < a[i].len() implies vab[i][j] == vba[i][j] by {
            assert(vab[i][j] == xor_bit(a[i][j], b[i][j]));
            assert(vba[i][j] == xor_bit(b[i][j], a[i][j]));
        }
        assert(vab[i] =~= vba[i]);
    }
    assert(vab =~= vba);
}

} // verus!
