use vstd::prelude::*;
use vstd::string::StringExecFns;

verus! {

/// A dense boolean bitmap keyed by linear index, column by column.
pub struct BitGrid {
    bits: Vec<bool>,
    width: usize,
    height: usize,
}

impl BitGrid {
    /// The storage holds exactly one bit per cell.
    pub closed spec fn wf(&self) -> bool {
        self.bits.len() == self.width * self.height
    }

    pub closed spec fn spec_width(&self) -> int {
        self.width as int
    }

    pub closed spec fn spec_height(&self) -> int {
        self.height as int
    }

    /// The bit stored for the cell in column `x`, row `y`.
    pub closed spec fn cell(&self, x: int, y: int) -> bool {
        self.bits[x * self.spec_height() + y]
    }

    /// Creates a bitmap of the given extents with every bit clear.
    pub fn new(width: usize, height: usize) -> (r: BitGrid)
        requires
            width * height <= usize::MAX,
        ensures
            r.wf(),
            r.spec_width() == width,
            r.spec_height() == height,
            forall|x: int, y: int|
                0 <= x < width && 0 <= y < height ==> !r.cell(x, y),
    {
        let n = width * height;
        let mut bits: Vec<bool> = Vec::new();
        let mut i: usize = 0;
        while i < n
            invariant
                i <= n,
                bits.len() == i,
                forall|k: int| 0 <= k < i ==> !bits[k],
            decreases n - i,
        {
            bits.push(false);
            i += 1;
        }
        let r = BitGrid { bits, width, height };
        proof {
            assert forall|x: int, y: int|
                0 <= x < width && 0 <= y < height implies !r.cell(x, y) by {
                lemma_flat_index_in_range(x, y, width as int, height as int);
            }
        }
        r
    }

    pub fn width(&self) -> (r: usize)
        ensures
            r == self.spec_width(),
    {
        self.width
    }

    pub fn height(&self) -> (r: usize)
        ensures
            r == self.spec_height(),
    {
        self.height
    }

    /// Reads the bit of one cell; the coordinates must be in range.
    pub fn get(&self, x: usize, y: usize) -> (r: bool)
        requires
            self.wf(),
            x < self.spec_width(),
            y < self.spec_height(),
        ensures
            r == self.cell(x as int, y as int),
    {
        proof {
            lemma_flat_index_in_range(x as int, y as int, self.spec_width(), self.spec_height());
        }
        self.bits[x * self.height + y]
    }

    /// Writes the bit of one cell, leaving every other cell as it was.
    pub fn set(&mut self, x: usize, y: usize, value: bool)
        requires
            old(self).wf(),
            x < old(self).spec_width(),
            y < old(self).spec_height(),
        ensures
            final(self).wf(),
            final(self).spec_width() == old(self).spec_width(),
            final(self).spec_height() == old(self).spec_height(),
            final(self).cell(x as int, y as int) == value,
            forall|i: int, j: int|
                0 <= i < old(self).spec_width() && 0 <= j < old(self).spec_height()
                    && !(i == x && j == y) ==> final(self).cell(i, j) == old(self).cell(i, j),
    {
        proof {
            lemma_flat_index_in_range(x as int, y as int, self.spec_width(), self.spec_height());
        }
        let idx = x * self.height + y;
        self.bits.set(idx, value);
        proof {
            assert forall|i: int, j: int|
                0 <= i < old(self).spec_width() && 0 <= j < old(self).spec_height()
                    && !(i == x && j == y) implies self.cell(i, j) == old(self).cell(i, j) by {
                lemma_flat_index_in_range(i, j, self.spec_width(), self.spec_height());
                lemma_flat_index_injective(i, j, x as int, y as int, self.spec_height());
            }
        }
    }
}

impl BitGrid {
    /// The length of the textual rendering: one character per cell and one
    /// line break per row.
    pub open spec fn render_len(&self) -> int {
        self.spec_height() * (self.spec_width() + 1)
    }

    /// The character at one position of the textual rendering: rows are laid
    /// out top to bottom, each cell shown as `.` where its bit is set and `@`
    /// where it is clear, and each row terminated by a line break.
    pub open spec fn render_char(&self, p: int) -> char {
        if p % (self.spec_width() + 1) == self.spec_width() {
            '\n'
        } else if self.cell(p % (self.spec_width() + 1), p / (self.spec_width() + 1)) {
            '.'
        } else {
            '@'
        }
    }

    /// The whole textual rendering.
    pub open spec fn render_spec(&self) -> Seq<char> {
        Seq::new(self.render_len() as nat, |p: int| self.render_char(p))
    }

    /// Renders the bitmap as text, row by row.
    #[verifier::loop_isolation(false)]
    pub fn render_text(&self) -> (r: String)
        requires
            self.wf(),
        ensures
            r@ == self.render_spec(),
    {
        proof {
            reveal_strlit(".");
            reveal_strlit("@");
            reveal_strlit("\n");
        }
        let w = self.width;
        let h = self.height;
        let mut out = String::new();
        let mut y: usize = 0;
        while y < h
            invariant
                y <= h,
                out@ == self.render_spec().take(y * (w + 1) as int),
            decreases h - y,
        {
            let mut x: usize = 0;
            while x < w
                invariant
                    y < h,
                    x <= w,
                    out@ == self.render_spec().take(y * (w + 1) as int + x),
                decreases w - x,
            {
                let ghost p = y * (w + 1) as int + x;
                proof {
                    lemma_render_position(y as int, x as int, w as int, h as int);
                    vstd::arithmetic::div_mod::lemma_fundamental_div_mod_converse(
                        p, w as int + 1, y as int, x as int);
                    assert(self.render_spec()[p] == self.render_char(p));
                }
                if self.get(x, y) {
                    out.append(".");
                } else {
                    out.append("@");
                }
                proof {
                    assert(out@ =~= self.render_spec().take(p + 1));
                }
                x += 1;
            }
            let ghost p = y * (w + 1) as int + w;
            proof {
                lemma_render_position(y as int, w as int, w as int, h as int);
                vstd::arithmetic::div_mod::lemma_fundamental_div_mod_converse(
                    p, w as int + 1, y as int, w as int);
                assert(self.render_spec()[p] == self.render_char(p));
            }
            out.append("\n");
            proof {
                assert(out@ =~= self.render_spec().take(p + 1));
                assert(y * (w + 1) as int + (w + 1) == (y + 1) * (w + 1) as int) by (nonlinear_arith);
            }
            y += 1;
        }
        proof {
            assert(out@ =~= self.render_spec());
        }
        out
    }
}

/// A well-formed bitmap's cell count fits the machine, being the length of
/// its storage vector.
pub proof fn lemma_wf_size(g: &BitGrid)
    requires
        g.wf(),
    ensures
        g.spec_width() * g.spec_height() <= usize::MAX,
{
    assert(g.bits@.len() <= usize::MAX);
}

/// A position inside a row lies inside the whole rendering.
#[verifier::nonlinear]
pub proof fn lemma_render_position(y: int, x: int, w: int, h: int)
    requires
        0 <= y < h,
        0 <= x <= w,
    ensures
        0 <= y * (w + 1) + x,
        y * (w + 1) + x < h * (w + 1),
        y * (w + 1) + x + 1 <= h * (w + 1),
{
}

/// A cell's flat index lies inside the storage.
#[verifier::nonlinear]
pub proof fn lemma_flat_index_in_range(x: int, y: int, w: int, h: int)
    requires
        0 <= x < w,
        0 <= y < h,
    ensures
        0 <= x * h + y < w * h,
{
}

/// Distinct cells have distinct flat indices.
#[verifier::nonlinear]
pub proof fn lemma_flat_index_injective(x1: int, y1: int, x2: int, y2: int, h: int)
    requires
        0 <= y1 < h,
        0 <= y2 < h,
        !(x1 == x2 && y1 == y2),
    ensures
        x1 * h + y1 != x2 * h + y2,
{
}

} // verus!
