//! Index lists for drawing a node's vertex grid.

use vstd::prelude::*;
use vstd::arithmetic::div_mod::lemma_fundamental_div_mod_converse;

verus! {

/// Offset of the `k`-th corner of a quad's two triangles in a grid `w` vertices wide.
pub open spec fn corner_offset(k: int, w: int) -> int {
    if k == 0 {
        0
    } else if k == 1 {
        1
    } else if k == 2 {
        w
    } else if k == 3 {
        1
    } else if k == 4 {
        w + 1
    } else {
        w
    }
}

/// The `i`-th index of the triangle list of a `res` × `res` quad grid: six per quad,
/// quads row by row.
pub open spec fn grid_index(res: int, i: int) -> int {
    let q = i / 6;
    let k = i % 6;
    let w = res + 1;
    corner_offset(k, w) + q % res + (q / res) * w
}

/// Triangle-list indices of a `resolution` × `resolution` grid of quads over a vertex
/// grid `resolution + 1` wide.
pub fn grid_indices(resolution: u16) -> (r: Vec<u16>)
    requires
        resolution <= 255,
    ensures
        r.len() == 6 * resolution * resolution,
        forall|i: int| 0 <= i < r.len() ==> #[trigger] r@[i] as int == grid_index(resolution as int, i),
{
    let res = resolution as usize;
    let w: u16 = resolution + 1;
    let mut r: Vec<u16> = Vec::new();
    let mut y: u16 = 0;
    proof {
        assert(6 * (0 as int) * (res as int) == 0);
    }
    while y < resolution
        invariant
            resolution <= 255,
            res == resolution,
            w == resolution + 1,
            y <= resolution,
            r.len() == 6 * (y as int) * (res as int),
            forall|i: int| 0 <= i < r.len() ==> #[trigger] r@[i] as int == grid_index(resolution as int, i),
        decreases resolution - y,
    {
        let mut x: u16 = 0;
        proof {
            assert(6 * (y as int) * (res as int) == 6 * ((y as int) * (res as int) + 0)) by (nonlinear_arith);
        }
        while x < resolution
            invariant
                resolution <= 255,
                res == resolution,
                w == resolution + 1,
                y < resolution,
                x <= resolution,
                r.len() == 6 * ((y as int) * (res as int) + x as int),
                forall|i: int| 0 <= i < r.len() ==> #[trigger] r@[i] as int == grid_index(resolution as int, i),
            decreases resolution - x,
        {
            proof {
                assert((y as int) * (w as int) <= 255 * 256) by (nonlinear_arith)
                    requires
                        y < 256,
                        w <= 256,
                ;
            }
            let base: u16 = x + y * w;
            let offsets: [u16; 6] = [0, 1, w, 1, w + 1, w];
            let mut k: usize = 0;
            while k < 6
                invariant
                    resolution <= 255,
                    w == resolution + 1,
                    y < resolution,
                    x < resolution,
                    base == x + y * w,
                    k <= 6,
                    offsets@ == seq![0u16, 1u16, w, 1u16, (w + 1) as u16, w],
                    r.len() == 6 * ((y as int) * (res as int) + x as int) + k,
                    res == resolution,
                    forall|i: int| 0 <= i < r.len() ==> #[trigger] r@[i] as int == grid_index(resolution as int, i),
                decreases 6 - k,
            {
                let ghost q: int = (y as int) * (res as int) + x as int;
                proof {
                    let i = r.len() as int;
                    lemma_fundamental_div_mod_converse(i, 6, q, k as int);
                    lemma_fundamental_div_mod_converse(q, res as int, y as int, x as int);
                    assert(grid_index(resolution as int, i) == corner_offset(k as int, w as int) + x + y * w);
                    assert((y as int) * (w as int) + x + w + 1 <= 65535) by (nonlinear_arith)
                        requires
                            y < resolution,
                            x < resolution,
                            w == resolution + 1,
                            resolution <= 255,
                    ;
                }
                r.push(offsets[k] + base);
                k = k + 1;
            }
            x = x + 1;
        }
        proof {
            assert(6 * ((y as int) * (res as int) + res as int) == 6 * (y as int + 1) * (res as int)) by (nonlinear_arith);
        }
        y = y + 1;
    }
    proof {
        assert(6 * (resolution as int) * (resolution as int) == 6 * resolution * resolution);
    }
    r
}

} // verus!
