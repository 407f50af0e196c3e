//! The reconciler: the recursive comparison of two coverage trees over the
//! same grid, which finds the floor regions whose contents differ.
use vstd::prelude::*;
use vstd::arithmetic::power2::{pow2, lemma_pow2_pos, lemma_pow2_strictly_increases, lemma2_to64};
use crate::coords::{GridConfig, RegionCoord, child, lemma_children_partition};
use crate::region_data::RegionData;
use crate::tree::{CoverageTree, OpData, region_of};

verus! {

/// Leaf `x` lies in `c`, and every coordinate from `c` down to `x` holds
/// different aggregates over `a` and over `b`: the descent from `c` reaches
/// `x` and reports it.
pub open spec fn divergent_below(
    cfg: GridConfig,
    a: Seq<OpData>,
    b: Seq<OpData>,
    c: RegionCoord,
    x: RegionCoord,
) -> bool {
    &&& cfg.coord_wf(x)
    &&& x.level == cfg.depth
    &&& cfg.covers(c, x.time_index as int, x.loc_index as int)
    &&& forall|d: RegionCoord|
        cfg.coord_wf(d) && d.level >= c.level && #[trigger] cfg.covers(
            d,
            x.time_index as int,
            x.loc_index as int,
        ) ==> region_of(cfg, a, d) != region_of(cfg, b, d)
}

/// A floor coordinate whose every enclosing region, the whole space
/// included, holds different aggregates over `a` and over `b`.
pub open spec fn divergent_leaf(cfg: GridConfig, a: Seq<OpData>, b: Seq<OpData>, x: RegionCoord) -> bool {
    divergent_below(cfg, a, b, GridConfig::root_spec(), x)
}

/// Appending a sequence disjoint from the first keeps both free of
/// duplicates.
proof fn lemma_append_disjoint(s: Seq<RegionCoord>, t: Seq<RegionCoord>)
    requires
        s.no_duplicates(),
        t.no_duplicates(),
        forall|x: RegionCoord| s.contains(x) ==> !t.contains(x),
    ensures
        (s + t).no_duplicates(),
        forall|x: RegionCoord| #[trigger] (s + t).contains(x) <==> s.contains(x) || t.contains(x),
{
    let u = s + t;
    assert forall|p: int, q: int| 0 <= p < u.len() && 0 <= q < u.len() && p != q implies u[p] != u[q] by {
        if p < s.len() && q >= s.len() {
            assert(s.contains(u[p]));
            assert(t.contains(u[q]));
        } else if p >= s.len() && q < s.len() {
            assert(s.contains(u[q]));
            assert(t.contains(u[p]));
        }
    }
    assert forall|x: RegionCoord| #[trigger] u.contains(x) <==> s.contains(x) || t.contains(x) by {
        if u.contains(x) {
            let p = choose|p: int| 0 <= p < u.len() && u[p] == x;
            if p < s.len() {
                assert(s[p] == x);
            } else {
                assert(t[p - s.len()] == x);
            }
        }
        if s.contains(x) {
            let p = choose|p: int| 0 <= p < s.len() && s[p] == x;
            assert(u[p] == x);
        }
        if t.contains(x) {
            let p = choose|p: int| 0 <= p < t.len() && t[p] == x;
            assert(u[p + s.len()] == x);
        }
    }
}

/// Below a coordinate whose aggregates differ, the divergent leaves are
/// those below its children.
proof fn lemma_descend_step(cfg: GridConfig, a: Seq<OpData>, b: Seq<OpData>, c: RegionCoord, x: RegionCoord)
    requires
        cfg.wf(),
        cfg.coord_wf(c),
        c.level < cfg.depth,
        region_of(cfg, a, c) != region_of(cfg, b, c),
    ensures
        divergent_below(cfg, a, b, c, x) <==> (divergent_below(cfg, a, b, child(c, 0, 0), x)
            || divergent_below(cfg, a, b, child(c, 0, 1), x) || divergent_below(cfg, a, b, child(c, 1, 0), x)
            || divergent_below(cfg, a, b, child(c, 1, 1), x)),
{
    lemma2_to64();
    lemma_pow2_strictly_increases(c.level as nat, 8);
    lemma_children_partition(cfg, c, x.time_index as int, x.loc_index as int);
    let lt = x.time_index as int;
    let ll = x.loc_index as int;
    if divergent_below(cfg, a, b, c, x) {
        assert forall|i: int, j: int| 0 <= i <= 1 && 0 <= j <= 1 && cfg.covers(child(c, i, j), lt, ll) implies
            divergent_below(cfg, a, b, child(c, i, j), x) by {
            assert forall|d: RegionCoord|
                cfg.coord_wf(d) && d.level >= child(c, i, j).level && #[trigger] cfg.covers(d, lt, ll)
                implies region_of(cfg, a, d) != region_of(cfg, b, d) by {}
        }
        assert(cfg.covers(child(c, 0, 0), lt, ll) ==> divergent_below(cfg, a, b, child(c, 0, 0), x));
        assert(cfg.covers(child(c, 0, 1), lt, ll) ==> divergent_below(cfg, a, b, child(c, 0, 1), x));
        assert(cfg.covers(child(c, 1, 0), lt, ll) ==> divergent_below(cfg, a, b, child(c, 1, 0), x));
        assert(cfg.covers(child(c, 1, 1), lt, ll) ==> divergent_below(cfg, a, b, child(c, 1, 1), x));
    }
    assert forall|i: int, j: int| 0 <= i <= 1 && 0 <= j <= 1 && divergent_below(cfg, a, b, child(c, i, j), x) implies
        divergent_below(cfg, a, b, c, x) by {
        assert forall|d: RegionCoord|
            cfg.coord_wf(d) && d.level >= c.level && #[trigger] cfg.covers(d, lt, ll)
            implies region_of(cfg, a, d) != region_of(cfg, b, d) by {
            if d.level == c.level {
                assert(d == c);
            }
        }
    }
    assert(divergent_below(cfg, a, b, child(c, 0, 0), x) ==> divergent_below(cfg, a, b, c, x));
    assert(divergent_below(cfg, a, b, child(c, 0, 1), x) ==> divergent_below(cfg, a, b, c, x));
    assert(divergent_below(cfg, a, b, child(c, 1, 0), x) ==> divergent_below(cfg, a, b, c, x));
    assert(divergent_below(cfg, a, b, child(c, 1, 1), x) ==> divergent_below(cfg, a, b, c, x));
}

/// The leaves below `c` that `descend` reports.
pub open spec fn reports_below(
    cfg: GridConfig,
    a: Seq<OpData>,
    b: Seq<OpData>,
    c: RegionCoord,
    s: Seq<RegionCoord>,
) -> bool {
    &&& s.no_duplicates()
    &&& forall|x: RegionCoord| #[trigger] s.contains(x) <==> divergent_below(cfg, a, b, c, x)
}

/// Compare the two trees at `c`; where they differ, go down to the floor and
/// append every divergent leaf below `c` to `out`.
fn descend(local: &CoverageTree, remote: &CoverageTree, c: RegionCoord, out: &mut Vec<RegionCoord>)
    requires
        local.wf(),
        remote.wf(),
        local.config() == remote.config(),
        local.config().coord_wf(c),
    ensures
        final(out)@.len() >= old(out)@.len(),
        final(out)@.take(old(out)@.len() as int) == old(out)@,
        reports_below(
            local.config(),
            local.snapshot(),
            remote.snapshot(),
            c,
            final(out)@.skip(old(out)@.len() as int),
        ),
    decreases local.config().depth - c.level,
{
    let ghost cfg = local.config();
    let ghost a = local.snapshot();
    let ghost b = remote.snapshot();
    let ghost start = out@;
    let l = local.query(c);
    let r = remote.query(c);
    if l == r {
        proof {
            assert forall|x: RegionCoord| !divergent_below(cfg, a, b, c, x) by {
                if divergent_below(cfg, a, b, c, x) {
                    assert(cfg.covers(c, x.time_index as int, x.loc_index as int));
                }
            }
            assert(out@.skip(start.len() as int) =~= Seq::<RegionCoord>::empty());
            assert(out@.take(start.len() as int) =~= start);
        }
        return;
    }
    let cfg_exec = local.config_exec();
    if c.level == cfg_exec.depth {
        out.push(c);
        proof {
            lemma2_to64();
            assert(pow2((cfg.depth - c.level) as nat) == 1);
            let s = out@.skip(start.len() as int);
            assert(s =~= seq![c]);
            assert(out@.take(start.len() as int) =~= start);
            assert forall|x: RegionCoord| #[trigger] s.contains(x) <==> divergent_below(cfg, a, b, c, x) by {
                if divergent_below(cfg, a, b, c, x) {
                    assert(x == c);
                }
                if x == c {
                    assert(s[0] == c);
                    assert forall|d: RegionCoord|
                        cfg.coord_wf(d) && d.level >= c.level && #[trigger] cfg.covers(
                            d,
                            x.time_index as int,
                            x.loc_index as int,
                        ) implies region_of(cfg, a, d) != region_of(cfg, b, d) by {
                        assert(d == c);
                    }
                }
            }
        }
        return;
    }
    let ch = cfg_exec.children(c);
    let ghost mut acc: Seq<RegionCoord> = Seq::empty();
    let mut i: usize = 0;
    while i < 4
        invariant
            local.wf(),
            remote.wf(),
            local.config() == remote.config(),
            cfg == local.config(),
            a == local.snapshot(),
            b == remote.snapshot(),
            cfg.wf(),
            cfg.coord_wf(c),
            c.level < cfg.depth,
            region_of(cfg, a, c) != region_of(cfg, b, c),
            ch@ == crate::coords::child_seq(c),
            forall|j: int| 0 <= j < 4 ==> cfg.coord_wf(#[trigger] ch@[j]),
            i <= 4,
            out@ == start + acc,
            acc.no_duplicates(),
            forall|x: RegionCoord| #[trigger] acc.contains(x) <==> exists|j: int|
                0 <= j < i && divergent_below(cfg, a, b, #[trigger] ch@[j], x),
        decreases 4 - i,
    {
        let ghost before = out@;
        descend(local, remote, ch[i], out);
        proof {
            let si = out@.skip(before.len() as int);
            assert(out@ =~= before + si);
            lemma2_to64();
            lemma_pow2_strictly_increases(c.level as nat, 8);
            assert forall|x: RegionCoord| acc.contains(x) implies !si.contains(x) by {
                let j = choose|j: int| 0 <= j < i && divergent_below(cfg, a, b, #[trigger] ch@[j], x);
                if si.contains(x) {
                    assert(divergent_below(cfg, a, b, ch@[i as int], x));
                    assert(cfg.covers(ch@[j], x.time_index as int, x.loc_index as int));
                    assert(cfg.covers(ch@[i as int], x.time_index as int, x.loc_index as int));
                }
            }
            lemma_append_disjoint(acc, si);
            let acc2 = acc + si;
            assert forall|x: RegionCoord| #[trigger] acc2.contains(x) <==> exists|j: int|
                0 <= j < i + 1 && divergent_below(cfg, a, b, #[trigger] ch@[j], x) by {
                if exists|j: int| 0 <= j < i + 1 && divergent_below(cfg, a, b, #[trigger] ch@[j], x) {
                    let j = choose|j: int| 0 <= j < i + 1 && divergent_below(cfg, a, b, #[trigger] ch@[j], x);
                    if j < i {
                        assert(acc.contains(x));
                    } else {
                        assert(si.contains(x));
                    }
                }
                if si.contains(x) {
                    assert(divergent_below(cfg, a, b, ch@[i as int], x));
                }
            }
            acc = acc2;
            assert(out@ =~= start + acc);
        }
        i = i + 1;
    }
    proof {
        assert(out@.skip(start.len() as int) =~= acc);
        assert(out@.take(start.len() as int) =~= start);
        assert forall|x: RegionCoord| #[trigger] acc.contains(x) <==> divergent_below(cfg, a, b, c, x) by {
            lemma_descend_step(cfg, a, b, c, x);
            if divergent_below(cfg, a, b, c, x) {
                if divergent_below(cfg, a, b, child(c, 0, 0), x) {
                    assert(divergent_below(cfg, a, b, ch@[0], x));
                } else if divergent_below(cfg, a, b, child(c, 0, 1), x) {
                    assert(divergent_below(cfg, a, b, ch@[1], x));
                } else if divergent_below(cfg, a, b, child(c, 1, 0), x) {
                    assert(divergent_below(cfg, a, b, ch@[2], x));
                } else {
                    assert(divergent_below(cfg, a, b, ch@[3], x));
                }
            }
        }
    }
}

/// The floor coordinates where the two trees disagree: the descent from the
/// whole space stops wherever the aggregates are equal, and reports each
/// floor region it reaches whose aggregates still differ.
pub fn reconcile(local: &CoverageTree, remote: &CoverageTree) -> (r: Vec<RegionCoord>)
    requires
        local.wf(),
        remote.wf(),
        local.config() == remote.config(),
    ensures
        r@.no_duplicates(),
        forall|x: RegionCoord| #[trigger] r@.contains(x) <==> divergent_leaf(
            local.config(),
            local.snapshot(),
            remote.snapshot(),
            x,
        ),
{
    let mut out: Vec<RegionCoord> = Vec::new();
    let root = GridConfig::root();
    proof {
        lemma2_to64();
    }
    descend(local, remote, root, &mut out);
    assert(out@.skip(0) =~= out@);
    out
}

/// What one step of a reconciliation round decides at a coordinate, once the
/// remote peer's aggregate for it has arrived.
#[derive(Clone, Copy, Debug)]
pub enum Step {
    /// The aggregates are equal: nothing below this coordinate diverges.
    Match,
    /// The aggregates differ at the floor: this coordinate is a result.
    Divergent(RegionCoord),
    /// The aggregates differ above the floor: fetch and compare these four.
    Descend([RegionCoord; 4]),
}

/// One step of a round whose remote side is fetched coordinate by
/// coordinate: compare the local aggregate at `c` with the remote one, and
/// say whether to stop, report `c`, or go on with its children.
pub fn reconcile_step(local: &CoverageTree, c: RegionCoord, remote: RegionData) -> (r: Step)
    requires
        local.wf(),
        local.config().coord_wf(c),
    ensures
        local.region(c) == remote@ <==> r == Step::Match,
        local.region(c) != remote@ && c.level == local.config().depth <==> r == Step::Divergent(c),
        r matches Step::Descend(ch) ==> local.region(c) != remote@ && c.level < local.config().depth
            && ch@ == crate::coords::child_seq(c),
        local.region(c) != remote@ && c.level < local.config().depth ==> r is Descend,
{
    let l = local.query(c);
    if l == remote {
        return Step::Match;
    }
    let cfg = local.config_exec();
    if c.level == cfg.depth {
        Step::Divergent(c)
    } else {
        Step::Descend(cfg.children(c))
    }
}

/// Two trees built from the same operations disagree nowhere: every result
/// that meets the contract of [`reconcile`] is empty.
pub proof fn lemma_identical_trees_converge(local: &CoverageTree, remote: &CoverageTree)
    requires
        local.wf(),
        remote.wf(),
        local.config() == remote.config(),
        local.snapshot() == remote.snapshot(),
    ensures
        forall|x: RegionCoord|
            !divergent_leaf(local.config(), local.snapshot(), remote.snapshot(), x),
        forall|r: Seq<RegionCoord>|
            (forall|x: RegionCoord| #[trigger] r.contains(x) <==> divergent_leaf(
                local.config(),
                local.snapshot(),
                remote.snapshot(),
                x,
            )) ==> r.len() == 0,
{
    let cfg = local.config();
    lemma2_to64();
    assert forall|x: RegionCoord| !divergent_leaf(cfg, local.snapshot(), remote.snapshot(), x) by {
        if divergent_leaf(cfg, local.snapshot(), remote.snapshot(), x) {
            assert(cfg.covers(GridConfig::root_spec(), x.time_index as int, x.loc_index as int));
        }
    }
    assert forall|r: Seq<RegionCoord>|
        (forall|x: RegionCoord| #[trigger] r.contains(x) <==> divergent_leaf(
            cfg,
            local.snapshot(),
            remote.snapshot(),
            x,
        )) implies r.len() == 0 by {
        if r.len() > 0 {
            assert(r.contains(r[0]));
        }
    }
}

/// Where the remote peer holds exactly one operation `o` more, the only
/// divergent leaf is the floor coordinate that contains `o`, and every result
/// that meets the contract of [`reconcile`] is that one coordinate.
pub proof fn lemma_one_extra_op_one_leaf(local: &CoverageTree, remote: &CoverageTree, o: OpData)
    requires
        local.wf(),
        remote.wf(),
        local.config() == remote.config(),
        remote.snapshot() == local.snapshot().push(o),
    ensures
        local.config().coord_wf(local.config().leaf_spec(o.time, o.loc)),
        local.config().contains(local.config().leaf_spec(o.time, o.loc), o.time, o.loc),
        forall|x: RegionCoord|
            divergent_leaf(local.config(), local.snapshot(), remote.snapshot(), x) <==> x
                == local.config().leaf_spec(o.time, o.loc),
        forall|r: Seq<RegionCoord>|
            r.no_duplicates() && (forall|x: RegionCoord| #[trigger] r.contains(x) <==> divergent_leaf(
                local.config(),
                local.snapshot(),
                remote.snapshot(),
                x,
            )) ==> r == seq![local.config().leaf_spec(o.time, o.loc)],
{
    let cfg = local.config();
    let a = local.snapshot();
    let b = remote.snapshot();
    let leaf = cfg.leaf_spec(o.time, o.loc);
    local.lemma_wf_facts();
    remote.lemma_wf_facts();
    assert(b.drop_last() =~= a);
    assert(b[b.len() - 1] == o);
    assert(cfg.in_time_range(o.time));
    lemma2_to64();
    crate::coords::lemma_leaf_loc_bounds(cfg, o.loc);
    lemma_pow2_pos(cfg.depth as nat);
    lemma_pow2_strictly_increases(cfg.depth as nat, 9);
    vstd::arithmetic::div_mod::lemma_div_pos_is_pos(o.time as int, cfg.time_quantum as int);
    assert(pow2((cfg.depth - leaf.level) as nat) == 1);
    assert forall|d: RegionCoord| #![trigger region_of(cfg, b, d)]
        (region_of(cfg, a, d) != region_of(cfg, b, d)) <==> cfg.contains(d, o.time, o.loc) by {}
    assert forall|x: RegionCoord| divergent_leaf(cfg, a, b, x) <==> x == leaf by {
        if x == leaf {
            crate::coords::lemma_root_contains(cfg, o.time, o.loc);
            assert forall|d: RegionCoord|
                cfg.coord_wf(d) && d.level >= 0 && #[trigger] cfg.covers(d, x.time_index as int, x.loc_index as int)
                implies region_of(cfg, a, d) != region_of(cfg, b, d) by {
                assert(cfg.contains(d, o.time, o.loc));
            }
        }
        if divergent_leaf(cfg, a, b, x) {
            assert(cfg.covers(x, x.time_index as int, x.loc_index as int));
            assert(region_of(cfg, a, x) != region_of(cfg, b, x));
        }
    }
    crate::coords::lemma_root_contains(cfg, o.time, o.loc);
    assert forall|r: Seq<RegionCoord>|
        r.no_duplicates() && (forall|x: RegionCoord| #[trigger] r.contains(x) <==> divergent_leaf(
            cfg,
            a,
            b,
            x,
        )) implies r == seq![leaf] by {
        assert(r.contains(leaf));
        assert(r.contains(r[0]));
        if r.len() > 1 {
            assert(r.contains(r[1]));
        }
        assert(r =~= seq![leaf]);
    }
}

} // verus!
