//! A set of pixels, stored as a bitset over a window of the grid.
use vstd::prelude::*;

verus! {

/// Set of visited pixels. Pixels inside the window `[xmin, xmin + width) x
/// [ymin, ymin + height)` live in a bitset; any other pixel goes to a short list.
pub struct PixelCache {
    xmin: usize,
    ymin: usize,
    width: usize,
    height: usize,
    bits: Vec<bool>,
    outside: Vec<(usize, usize)>,
    seen: Ghost<Set<(int, int)>>,
}

/// `(row - ymin) * width + (col - xmin)` tells window pixels apart.
proof fn lemma_index_injective(r1: int, c1: int, r2: int, c2: int, w: int)
    requires
        0 <= c1 < w,
        0 <= c2 < w,
        0 <= r1,
        0 <= r2,
        r1 * w + c1 == r2 * w + c2,
    ensures
        r1 == r2 && c1 == c2,
{
    if r1 < r2 {
        assert(r1 * w + w <= r2 * w) by (nonlinear_arith) requires r1 < r2, w > 0;
    } else if r2 < r1 {
        assert(r2 * w + w <= r1 * w) by (nonlinear_arith) requires r2 < r1, w > 0;
    }
}

/// A window index lies inside the bitset.
proof fn lemma_index_bound(r: int, c: int, w: int, h: int)
    requires
        0 <= c < w,
        0 <= r < h,
    ensures
        0 <= r * w + c < h * w,
        h * w == w * h,
{
    assert(r * w + c < h * w) by (nonlinear_arith) requires 0 <= c < w, 0 <= r < h;
    assert(h * w == w * h) by (nonlinear_arith);
    assert(0 <= r * w) by (nonlinear_arith) requires 0 <= r, 0 <= w;
}

impl PixelCache {
    /// The pixels in the set, as `(row, col)`.
    pub closed spec fn contents(&self) -> Set<(int, int)> {
        self.seen@
    }

    pub closed spec fn in_window(&self, row: int, col: int) -> bool {
        self.ymin <= row < self.ymin + self.height && self.xmin <= col < self.xmin + self.width
    }

    pub closed spec fn index(&self, row: int, col: int) -> int {
        (row - self.ymin) * self.width + (col - self.xmin)
    }

    pub closed spec fn inv(&self) -> bool {
        &&& self.bits@.len() == self.width * self.height
        &&& self.width * self.height <= usize::MAX
        &&& self.xmin + self.width <= usize::MAX
        &&& self.ymin + self.height <= usize::MAX
        &&& forall|r: int, c: int| #[trigger] self.in_window(r, c) ==> (self.bits@[self.index(r, c)] <==> self.seen@.contains((r, c)))
        &&& forall|r: int, c: int| !#[trigger] self.in_window(r, c) && 0 <= r <= usize::MAX && 0 <= c <= usize::MAX ==> (self.seen@.contains((r, c)) <==> self.outside@.contains((c as usize, r as usize)))
        &&& forall|p: (int, int)| #[trigger] self.seen@.contains(p) ==> 0 <= p.0 <= usize::MAX && 0 <= p.1 <= usize::MAX
    }

    /// An empty set whose bitset covers columns `[xmin, xmin + width)` and rows `[ymin, ymin + height)`.
    pub fn new(xmin: usize, ymin: usize, width: usize, height: usize) -> (r: PixelCache)
        requires
            xmin + width <= usize::MAX,
            ymin + height <= usize::MAX,
            width * height <= usize::MAX,
        ensures
            r.inv(),
            r.contents() == Set::<(int, int)>::empty(),
    {
        let n = width * height;
        let mut bits: Vec<bool> = Vec::new();
        let mut i: usize = 0;
        while i < n
            invariant
                i <= n,
                bits@.len() == i,
                forall|j: int| 0 <= j < i ==> !bits@[j],
            decreases n - i,
        {
            bits.push(false);
            i = i + 1;
        }
        let r = PixelCache { xmin, ymin, width, height, bits, outside: Vec::new(), seen: Ghost(Set::empty()) };
        assert forall|rr: int, c: int| #[trigger] r.in_window(rr, c) implies (r.bits@[r.index(rr, c)] <==> r.seen@.contains((rr, c))) by {
            lemma_index_bound(rr - ymin, c - xmin, width as int, height as int);
        }
        r
    }

    fn window_index(&self, x: usize, y: usize) -> (r: Option<usize>)
        requires
            self.inv(),
        ensures
            r.is_some() <==> self.in_window(y as int, x as int),
            r.is_some() ==> r.unwrap() == self.index(y as int, x as int),
            r.is_some() ==> r.unwrap() < self.bits@.len(),
    {
        if y >= self.ymin && y - self.ymin < self.height && x >= self.xmin && x - self.xmin < self.width {
            let r = y - self.ymin;
            let c = x - self.xmin;
            proof {
                lemma_index_bound(r as int, c as int, self.width as int, self.height as int);
                assert(r * self.width <= r * self.width + c);
            }
            Some(r * self.width + c)
        } else {
            None
        }
    }

    /// Whether pixel `(row y, col x)` is in the set.
    pub fn contains(&self, x: usize, y: usize) -> (r: bool)
        requires
            self.inv(),
        ensures
            r == self.contents().contains((y as int, x as int)),
    {
        match self.window_index(x, y) {
            Some(i) => {
                assert(self.in_window(y as int, x as int));
                self.bits[i]
            },
            None => {
                assert(!self.in_window(y as int, x as int));
                let mut k: usize = 0;
                while k < self.outside.len()
                    invariant
                        self.inv(),
                        !self.in_window(y as int, x as int),
                        k <= self.outside@.len(),
                        forall|j: int| 0 <= j < k ==> self.outside@[j] != (x, y),
                    decreases self.outside@.len() - k,
                {
                    if self.outside[k].0 == x && self.outside[k].1 == y {
                        assert(self.outside@.contains((x, y)));
                        return true;
                    }
                    k = k + 1;
                }
                assert(!self.outside@.contains((x, y)));
                false
            },
        }
    }

    /// Adds pixel `(row y, col x)`; returns whether it was absent before.
    pub fn insert(&mut self, x: usize, y: usize) -> (r: bool)
        requires
            old(self).inv(),
        ensures
            final(self).inv(),
            r == !old(self).contents().contains((y as int, x as int)),
            final(self).contents() == old(self).contents().insert((y as int, x as int)),
    {
        if self.contains(x, y) {
            proof {
                assert(self.seen@.insert((y as int, x as int)) =~= self.seen@);
            }
            return false;
        }
        let ghost pre = *self;
        let ghost p = (y as int, x as int);
        match self.window_index(x, y) {
            Some(i) => {
                self.bits.set(i, true);
                proof {
                    self.seen@ = pre.seen@.insert(p);
                    assert forall|r: int, c: int| #[trigger] self.in_window(r, c) implies (self.bits@[self.index(r, c)] <==> self.seen@.contains((r, c))) by {
                        assert(pre.in_window(r, c));
                        lemma_index_bound(r - self.ymin, c - self.xmin, self.width as int, self.height as int);
                        if (r, c) != p {
                            lemma_index_bound(y - self.ymin, x - self.xmin, self.width as int, self.height as int);
                            if self.index(r, c) == i {
                                lemma_index_injective(r - self.ymin, c - self.xmin, y - self.ymin, x - self.xmin, self.width as int);
                            }
                        }
                    }
                    assert forall|r: int, c: int| !#[trigger] self.in_window(r, c) && 0 <= r <= usize::MAX && 0 <= c <= usize::MAX implies (self.seen@.contains((r, c)) <==> self.outside@.contains((c as usize, r as usize))) by {
                        assert(!pre.in_window(r, c));
                    }
                }
            },
            None => {
                self.outside.push((x, y));
                proof {
                    self.seen@ = pre.seen@.insert(p);
                    assert forall|r: int, c: int| #[trigger] self.in_window(r, c) implies (self.bits@[self.index(r, c)] <==> self.seen@.contains((r, c))) by {
                        assert(pre.in_window(r, c));
                    }
                    assert forall|r: int, c: int| !#[trigger] self.in_window(r, c) && 0 <= r <= usize::MAX && 0 <= c <= usize::MAX implies (self.seen@.contains((r, c)) <==> self.outside@.contains((c as usize, r as usize))) by {
                        assert(!pre.in_window(r, c));
                        if (r, c) != p {
                            if self.outside@.contains((c as usize, r as usize)) {
                                let j = choose|j: int| 0 <= j < self.outside@.len() && self.outside@[j] == (c as usize, r as usize);
                                if j < pre.outside@.len() {
                                    assert(pre.outside@[j] == self.outside@[j]);
                                }
                            }
                            if pre.outside@.contains((c as usize, r as usize)) {
                                let j = choose|j: int| 0 <= j < pre.outside@.len() && pre.outside@[j] == (c as usize, r as usize);
                                assert(self.outside@[j] == pre.outside@[j]);
                            }
                        } else {
                            assert(self.outside@[self.outside@.len() - 1] == (x, y));
                        }
                    }
                }
            },
        }
        true
    }
}

} // verus!
