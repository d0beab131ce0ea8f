use vstd::prelude::*;

verus! {

/// `a` reduced into `[0, b)`, also for negative `a`.
pub fn modulo(a: i64, b: i64) -> (r: usize)
    requires
        b > 0,
        b as int <= usize::MAX,
    ensures
        r as int == a as int % b as int,
{
    if a >= 0 {
        ((a as u64) % (b as u64)) as usize
    } else {
        let k: u64 = (-(a + 1)) as u64;
        let t: u64 = k % (b as u64);
        proof {
            let q = k as int / b as int;
            assert(k as int == b as int * q + t as int) by (nonlinear_arith)
                requires
                    b > 0,
                    q == k as int / b as int,
                    t as int == k as int % b as int,
            ;
            assert(a as int == b as int * (-q - 1) + (b as int - 1 - t as int)) by (nonlinear_arith)
                requires
                    k as int == b as int * q + t as int,
                    a as int == -(k as int) - 1,
            ;
            vstd::arithmetic::div_mod::lemma_fundamental_div_mod_converse(
                a as int,
                b as int,
                -q - 1,
                b as int - 1 - t as int,
            );
        }
        (b as u64 - 1 - t) as usize
    }
}


/// A `width` × `height` grid of samples, row by row.
pub struct Heightmap<T> {
    pub heights: Vec<T>,
    pub width: u16,
    pub height: u16,
}

impl<T: Copy> Heightmap<T> {
    pub open spec fn wf(&self) -> bool {
        self.heights.len() == self.width as nat * self.height as nat
    }

    pub fn new(heights: Vec<T>, width: u16, height: u16) -> (r: Heightmap<T>)
        requires
            heights.len() == width as nat * height as nat,
        ensures
            r.wf(),
            r.heights@ == heights@,
            r.width == width,
            r.height == height,
    {
        Heightmap { heights, width, height }
    }

    /// The sample at position `x + y * width` of the grid, if there is one.
    pub fn get(&self, x: u16, y: u16) -> (r: Option<T>)
        ensures
            (x as nat + y as nat * self.width as nat) < self.heights.len() ==> r == Some(
                self.heights@[x as int + y as int * self.width as int],
            ),
            (x as nat + y as nat * self.width as nat) >= self.heights.len() ==> r is None,
    {
        proof {
            let (a, b) = (y as nat, self.width as nat);
            assert(a * b <= 65535 * 65535) by (nonlinear_arith)
                requires
                    a <= 65535,
                    b <= 65535,
            ;
        }
        let i: usize = x as usize + (y as usize) * (self.width as usize);
        if i < self.heights.len() {
            Some(self.heights[i])
        } else {
            None
        }
    }

    /// The sample at `(x, y)` with both coordinates taken modulo the grid's size.
    pub fn get_wrapping(&self, x: i64, y: i64) -> (r: T)
        requires
            self.wf(),
            self.width > 0,
            self.height > 0,
        ensures
            r == self.heights@[(x as int % self.width as int) + (y as int % self.height as int) * self.width as int],
    {
        let xm = modulo(x, self.width as i64);
        let ym = modulo(y, self.height as i64);
        proof {
            assert((ym * (self.width as nat) + xm) < (self.width as nat) * (self.height as nat)) by (nonlinear_arith)
                requires
                    xm < self.width,
                    ym < self.height,
            ;
        }
        self.heights[xm + ym * (self.width as usize)]
    }
}

} // verus!
