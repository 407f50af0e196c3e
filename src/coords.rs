//! The coordinate space: rectangles of (time × location) space at each level
//! of a grid that halves both axes from one level to the next.
use vstd::prelude::*;
use vstd::arithmetic::power2::{pow2, lemma_pow2_unfold, lemma_pow2_pos, lemma2_to64};
use vstd::arithmetic::div_mod::{lemma_div_denominator, lemma_multiply_divide_lt};

verus! {

/// The finest level that a grid may have.
pub const MAX_DEPTH: u32 = 8;

/// The grid that both peers of a reconciliation round share. The coarsest
/// region (level 0) covers the whole ring and `2^depth` quanta of time; each
/// level halves both axes, down to the floor at level `depth`.
#[derive(Clone, Copy, Debug)]
pub struct GridConfig {
    /// Width of a time quantum: the floor width of the time axis.
    pub time_quantum: u64,
    /// Number of subdivisions from the whole space down to the floor.
    pub depth: u32,
}

/// One rectangle of the grid: at `level` each axis has `2^level` segments,
/// and this is segment `time_index` of the time axis crossed with segment
/// `loc_index` of the location ring.
#[derive(Clone, Copy, Debug, PartialEq, Eq, Structural)]
pub struct RegionCoord {
    pub level: u32,
    pub time_index: u32,
    pub loc_index: u32,
}

impl GridConfig {
    pub open spec fn wf(&self) -> bool {
        self.time_quantum > 0 && self.depth <= MAX_DEPTH
    }

    /// A coordinate of this grid.
    pub open spec fn coord_wf(&self, c: RegionCoord) -> bool {
        &&& c.level <= self.depth
        &&& c.time_index < pow2(c.level as nat)
        &&& c.loc_index < pow2(c.level as nat)
    }

    /// The floor segment of the time axis that a timestamp falls in.
    pub open spec fn leaf_time(&self, time: u64) -> int {
        time as int / self.time_quantum as int
    }

    /// The floor segment of the location ring that a location falls in.
    pub open spec fn leaf_loc(&self, loc: u32) -> int {
        loc as int / pow2((32 - self.depth) as nat) as int
    }

    /// The timestamp lies in the time range that the grid covers.
    pub open spec fn in_time_range(&self, time: u64) -> bool {
        self.leaf_time(time) < pow2(self.depth as nat)
    }

    /// Coordinate `c` covers the floor cell (`lt`, `ll`).
    pub open spec fn covers(&self, c: RegionCoord, lt: int, ll: int) -> bool {
        let w = pow2((self.depth - c.level) as nat) as int;
        &&& lt / w == c.time_index as int
        &&& ll / w == c.loc_index as int
    }

    /// Coordinate `c` contains the point (`time`, `loc`).
    pub open spec fn contains(&self, c: RegionCoord, time: u64, loc: u32) -> bool {
        &&& self.in_time_range(time)
        &&& self.covers(c, self.leaf_time(time), self.leaf_loc(loc))
    }

    /// The coordinate of the whole space.
    pub open spec fn root_spec() -> RegionCoord {
        RegionCoord { level: 0, time_index: 0, loc_index: 0 }
    }

    /// The floor coordinate that contains the point (`time`, `loc`).
    pub open spec fn leaf_spec(&self, time: u64, loc: u32) -> RegionCoord {
        RegionCoord {
            level: self.depth,
            time_index: self.leaf_time(time) as u32,
            loc_index: self.leaf_loc(loc) as u32,
        }
    }

    pub fn root() -> (r: RegionCoord)
        ensures
            r == Self::root_spec(),
    {
        RegionCoord { level: 0, time_index: 0, loc_index: 0 }
    }

    /// Locate the floor coordinate that contains the point (`time`, `loc`).
    pub fn leaf_of(&self, time: u64, loc: u32) -> (r: RegionCoord)
        requires
            self.wf(),
            self.in_time_range(time),
        ensures
            r == self.leaf_spec(time, loc),
            self.coord_wf(r),
            self.contains(r, time, loc),
    {
        let w = pow2_u64(32 - self.depth);
        proof {
            lemma2_to64();
            lemma_pow2_pos(self.depth as nat);
            vstd::arithmetic::power2::lemma_pow2_strictly_increases(self.depth as nat, 9);
            vstd::arithmetic::power2::lemma_pow2_adds((32 - self.depth) as nat, self.depth as nat);
            assert((32 - self.depth) as nat + self.depth as nat == 32);
            lemma_multiply_divide_lt(loc as int, w as int, pow2(self.depth as nat) as int);
        }
        let lt = time / self.time_quantum;
        let ll = (loc as u64) / w;
        let r = RegionCoord { level: self.depth, time_index: lt as u32, loc_index: ll as u32 };
        assert(pow2((self.depth - r.level) as nat) == 1);
        assert(self.leaf_time(time) / 1 == self.leaf_time(time));
        assert(self.leaf_loc(loc) / 1 == self.leaf_loc(loc));
        r
    }

    /// The four children of `c` at the next finer level, which together
    /// cover exactly what `c` covers.
    pub fn children(&self, c: RegionCoord) -> (r: [RegionCoord; 4])
        requires
            self.wf(),
            self.coord_wf(c),
            c.level < self.depth,
        ensures
            r@ == child_seq(c),
            forall|i: int| 0 <= i < 4 ==> self.coord_wf(#[trigger] r@[i]),
    {
        proof {
            lemma_pow2_unfold((c.level + 1) as nat);
            lemma2_to64();
        }
        let l = c.level + 1;
        let t = 2 * c.time_index;
        let x = 2 * c.loc_index;
        let r = [
            RegionCoord { level: l, time_index: t, loc_index: x },
            RegionCoord { level: l, time_index: t, loc_index: x + 1 },
            RegionCoord { level: l, time_index: t + 1, loc_index: x },
            RegionCoord { level: l, time_index: t + 1, loc_index: x + 1 },
        ];
        assert(r@ =~= child_seq(c));
        r
    }
}

/// Child (`a`, `b`) of `c`: `a` picks the time half, `b` the location half.
pub open spec fn child(c: RegionCoord, a: int, b: int) -> RegionCoord {
    RegionCoord {
        level: (c.level + 1) as u32,
        time_index: (2 * c.time_index + a) as u32,
        loc_index: (2 * c.loc_index + b) as u32,
    }
}

/// The children of `c` in the order in which they are visited.
pub open spec fn child_seq(c: RegionCoord) -> Seq<RegionCoord> {
    seq![child(c, 0, 0), child(c, 0, 1), child(c, 1, 0), child(c, 1, 1)]
}

/// `2^k` as a machine integer.
pub fn pow2_u64(k: u32) -> (r: u64)
    requires
        k <= 32,
    ensures
        r == pow2(k as nat),
{
    let mut r: u64 = 1;
    let mut i: u32 = 0;
    proof {
        lemma2_to64();
    }
    while i < k
        invariant
            i <= k <= 32,
            r == pow2(i as nat),
        decreases k - i,
    {
        proof {
            lemma_pow2_unfold((i + 1) as nat);
            vstd::arithmetic::power2::lemma_pow2_strictly_increases(i as nat, 32);
            lemma2_to64();
        }
        r = r * 2;
        i = i + 1;
    }
    r
}

/// Every location falls in a floor segment of the ring.
pub proof fn lemma_leaf_loc_bounds(cfg: GridConfig, loc: u32)
    requires
        cfg.wf(),
    ensures
        0 <= cfg.leaf_loc(loc) < pow2(cfg.depth as nat),
{
    lemma2_to64();
    lemma_pow2_pos((32 - cfg.depth) as nat);
    vstd::arithmetic::power2::lemma_pow2_adds((32 - cfg.depth) as nat, cfg.depth as nat);
    assert((32 - cfg.depth) as nat + cfg.depth as nat == 32);
    lemma_multiply_divide_lt(loc as int, pow2((32 - cfg.depth) as nat) as int, pow2(cfg.depth as nat) as int);
    vstd::arithmetic::div_mod::lemma_div_pos_is_pos(loc as int, pow2((32 - cfg.depth) as nat) as int);
}

/// The whole space contains every point of the grid's time range.
pub proof fn lemma_root_contains(cfg: GridConfig, time: u64, loc: u32)
    requires
        cfg.wf(),
        cfg.in_time_range(time),
    ensures
        cfg.contains(GridConfig::root_spec(), time, loc),
{
    lemma_leaf_loc_bounds(cfg, loc);
    lemma_pow2_pos(cfg.depth as nat);
    let w = pow2(cfg.depth as nat) as int;
    vstd::arithmetic::div_mod::lemma_div_pos_is_pos(time as int, cfg.time_quantum as int);
    vstd::arithmetic::div_mod::lemma_basic_div(cfg.leaf_time(time), w);
    vstd::arithmetic::div_mod::lemma_basic_div(cfg.leaf_loc(loc), w);
}

/// A floor cell lies in `c` exactly when it lies in one of its children.
pub proof fn lemma_children_partition(cfg: GridConfig, c: RegionCoord, lt: int, ll: int)
    requires
        cfg.wf(),
        cfg.coord_wf(c),
        c.level < cfg.depth,
        lt >= 0,
        ll >= 0,
    ensures
        cfg.covers(c, lt, ll) <==> (cfg.covers(child(c, 0, 0), lt, ll) || cfg.covers(
            child(c, 0, 1),
            lt,
            ll,
        ) || cfg.covers(child(c, 1, 0), lt, ll) || cfg.covers(child(c, 1, 1), lt, ll)),
{
    let s = (cfg.depth - c.level) as nat;
    let s1 = (cfg.depth - c.level - 1) as nat;
    lemma_pow2_unfold(s);
    lemma_pow2_pos(s1);
    lemma2_to64();
    vstd::arithmetic::power2::lemma_pow2_strictly_increases(c.level as nat, 8);
    let w1 = pow2(s1) as int;
    lemma_div_denominator(lt, w1, 2);
    lemma_div_denominator(ll, w1, 2);
    assert(w1 * 2 == pow2(s));
}

/// Map a signed index into an unsigned index: a negative index counts back
/// from `num`.
pub fn rectify_index(num: usize, i: i32) -> (r: usize)
    requires
        -(num as int) < i < num,
    ensures
        r == if i < 0 { num + i } else { i as int },
{
    if i < 0 {
        num - ((0 - (i as i64)) as usize)
    } else {
        i as usize
    }
}

/// [`rectify_index`], or `None` where `|i| >= num`.
pub fn checked_rectify_index(num: usize, i: i32) -> (r: Option<usize>)
    ensures
        r is Some <==> -(num as int) < i < num,
        r is Some ==> r->0 == if i < 0 { num + i } else { i as int },
{
    if (i as i64) < 0 && ((0 - (i as i64)) as u64) >= (num as u64) {
        None
    } else if (i as i64) >= 0 && (i as u64) >= (num as u64) {
        None
    } else {
        Some(rectify_index(num, i))
    }
}

} // verus!
