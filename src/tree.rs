//! The coverage tree: the aggregate of every region of the grid over one
//! snapshot of a node's operations.
use vstd::prelude::*;
use vstd::arithmetic::power2::{pow2, lemma_pow2_pos, lemma_pow2_strictly_increases, lemma2_to64, lemma_pow2_unfold};
use vstd::arithmetic::div_mod::{lemma_fundamental_div_mod, lemma_fundamental_div_mod_converse};
use crate::coords::{GridConfig, RegionCoord, child, lemma_children_partition, pow2_u64};
use crate::region_data::{OpHash, RegionData, RegionModel, combine, zero_model, zero_hash, lemma_xor_seq_group};

verus! {

/// One locally held operation, as the storage layer hands it over.
#[derive(Clone, Copy, Debug)]
pub struct OpData {
    pub hash: OpHash,
    pub size: u32,
    pub time: u64,
    pub loc: u32,
}

/// The region data of a single operation.
pub open spec fn op_model(op: OpData) -> RegionModel {
    RegionModel { hash: op.hash.0@, size: op.size as int, count: 1 }
}

/// All of `ops` folded into one region.
pub open spec fn fold_ops(ops: Seq<OpData>) -> RegionModel
    decreases ops.len(),
{
    if ops.len() == 0 {
        zero_model()
    } else {
        combine(fold_ops(ops.drop_last()), op_model(ops.last()))
    }
}

/// The aggregate of those of `ops` that coordinate `c` contains.
pub open spec fn region_of(cfg: GridConfig, ops: Seq<OpData>, c: RegionCoord) -> RegionModel
    decreases ops.len(),
{
    if ops.len() == 0 {
        zero_model()
    } else if cfg.contains(c, ops.last().time, ops.last().loc) {
        combine(region_of(cfg, ops.drop_last(), c), op_model(ops.last()))
    } else {
        region_of(cfg, ops.drop_last(), c)
    }
}

/// Every region is a fold of operations of positive size: its count is zero
/// exactly when its size is, and then its hash is zero too.
pub proof fn lemma_triple_invariant(ops: Seq<OpData>)
    requires
        forall|i: int| 0 <= i < ops.len() ==> (#[trigger] ops[i]).size > 0,
    ensures
        fold_ops(ops).count == 0 <==> fold_ops(ops).size == 0,
        fold_ops(ops).count == 0 ==> fold_ops(ops).hash == zero_hash(),
    decreases ops.len(),
{
    lemma_fold_counts(ops);
}

proof fn lemma_fold_counts(ops: Seq<OpData>)
    requires
        forall|i: int| 0 <= i < ops.len() ==> (#[trigger] ops[i]).size > 0,
    ensures
        fold_ops(ops).count == ops.len(),
        fold_ops(ops).size >= ops.len(),
    decreases ops.len(),
{
    if ops.len() > 0 {
        assert forall|i: int| 0 <= i < ops.drop_last().len() implies (#[trigger] ops.drop_last()[i]).size > 0 by {
            assert(ops.drop_last()[i] == ops[i]);
        }
        lemma_fold_counts(ops.drop_last());
        assert(ops[ops.len() - 1] == ops.last());
    }
}

/// The region of the whole space holds every operation of the time range.
proof fn lemma_root_is_fold(cfg: GridConfig, ops: Seq<OpData>)
    requires
        cfg.wf(),
        forall|i: int| 0 <= i < ops.len() ==> cfg.in_time_range(#[trigger] ops[i].time),
    ensures
        region_of(cfg, ops, GridConfig::root_spec()) == fold_ops(ops),
    decreases ops.len(),
{
    if ops.len() > 0 {
        assert forall|i: int| 0 <= i < ops.drop_last().len() implies cfg.in_time_range(#[trigger] ops.drop_last()[i].time) by {
            assert(ops.drop_last()[i] == ops[i]);
        }
        lemma_root_is_fold(cfg, ops.drop_last());
        assert(ops[ops.len() - 1] == ops.last());
        crate::coords::lemma_root_contains(cfg, ops.last().time, ops.last().loc);
    }
}

/// Floor cell number `j`, counting row by row along the time axis.
pub open spec fn leaf_cell(cfg: GridConfig, j: int) -> RegionCoord {
    let n = pow2(cfg.depth as nat) as int;
    cell(cfg.depth as nat, j / n, j % n)
}

/// The number of floor cells of the grid.
pub open spec fn num_leaves(cfg: GridConfig) -> int {
    pow2(cfg.depth as nat) as int * pow2(cfg.depth as nat) as int
}

/// The aggregates of the first `j` floor cells combined, in order.
pub open spec fn sum_leaves(cfg: GridConfig, ops: Seq<OpData>, j: int) -> RegionModel
    decreases j,
{
    if j <= 0 {
        zero_model()
    } else {
        combine(sum_leaves(cfg, ops, j - 1), region_of(cfg, ops, leaf_cell(cfg, j - 1)))
    }
}

proof fn lemma_sum_leaves_len(cfg: GridConfig, ops: Seq<OpData>, j: int)
    ensures
        sum_leaves(cfg, ops, j).hash.len() == 32,
    decreases j,
{
    if j > 0 {
        lemma_sum_leaves_len(cfg, ops, j - 1);
    }
}

proof fn lemma_sum_leaves_empty(cfg: GridConfig, j: int)
    ensures
        sum_leaves(cfg, Seq::<OpData>::empty(), j) == zero_model(),
    decreases j,
{
    if j > 0 {
        lemma_sum_leaves_empty(cfg, j - 1);
        lemma_xor_seq_group(zero_hash(), zero_hash(), zero_hash());
    }
}

/// Adding `o` to the operations adds it to the sum of the cells up to `j`
/// once that range reaches the cell of `o`.
proof fn lemma_sum_leaves_push(cfg: GridConfig, ops: Seq<OpData>, o: OpData, j: int)
    requires
        cfg.wf(),
        cfg.in_time_range(o.time),
        0 <= j <= num_leaves(cfg),
    ensures
        sum_leaves(cfg, ops.push(o), j) == if cfg.leaf_time(o.time) * pow2(cfg.depth as nat) + cfg.leaf_loc(o.loc) < j {
            combine(sum_leaves(cfg, ops, j), op_model(o))
        } else {
            sum_leaves(cfg, ops, j)
        },
    decreases j,
{
    let n = pow2(cfg.depth as nat) as int;
    let idx = cfg.leaf_time(o.time) * n + cfg.leaf_loc(o.loc);
    let post = ops.push(o);
    lemma2_to64();
    lemma_pow2_pos(cfg.depth as nat);
    lemma_pow2_strictly_increases(cfg.depth as nat, 9);
    crate::coords::lemma_leaf_loc_bounds(cfg, o.loc);
    vstd::arithmetic::div_mod::lemma_div_pos_is_pos(o.time as int, cfg.time_quantum as int);
    assert(idx >= 0) by (nonlinear_arith)
        requires
            idx == cfg.leaf_time(o.time) * n + cfg.leaf_loc(o.loc),
            cfg.leaf_time(o.time) >= 0,
            cfg.leaf_loc(o.loc) >= 0,
            n >= 1,
    ;
    if j > 0 {
        lemma_sum_leaves_push(cfg, ops, o, j - 1);
        assert(post.drop_last() =~= ops);
        lemma_split(j - 1, n);
        lemma_index(cfg.leaf_time(o.time), cfg.leaf_loc(o.loc), n);
        let c = leaf_cell(cfg, j - 1);
        assert(pow2((cfg.depth - c.level) as nat) == 1);
        assert(cfg.contains(c, o.time, o.loc) <==> j - 1 == idx);
        let sm = sum_leaves(cfg, ops, j - 1);
        let r = region_of(cfg, ops, c);
        let m = op_model(o);
        lemma_sum_leaves_len(cfg, ops, j - 1);
        lemma_region_bounded(cfg, ops, c);
        lemma_xor_seq_group(sm.hash, r.hash, m.hash);
        lemma_xor_seq_group(sm.hash, m.hash, r.hash);
        lemma_xor_seq_group(r.hash, m.hash, r.hash);
        lemma_xor_seq_group(m.hash, r.hash, m.hash);
        assert(post.last() == o);
        if j - 1 == idx {
            assert(region_of(cfg, post, c) == combine(r, m));
            assert(combine(sm, combine(r, m)) == combine(combine(sm, r), m));
        } else if j - 1 > idx {
            assert(region_of(cfg, post, c) == r);
            assert(combine(combine(sm, m), r) == combine(combine(sm, r), m));
        } else {
            assert(region_of(cfg, post, c) == r);
        }
    }
}

/// With every operation in the grid's time range, the floor cells together
/// hold exactly the fold of all operations.
pub proof fn lemma_leaves_sum_to_fold(cfg: GridConfig, ops: Seq<OpData>)
    requires
        cfg.wf(),
        forall|i: int| 0 <= i < ops.len() ==> cfg.in_time_range(#[trigger] ops[i].time),
    ensures
        sum_leaves(cfg, ops, num_leaves(cfg)) == fold_ops(ops),
    decreases ops.len(),
{
    let n = pow2(cfg.depth as nat) as int;
    if ops.len() == 0 {
        assert(ops =~= Seq::<OpData>::empty());
        lemma_sum_leaves_empty(cfg, n * n);
    } else {
        let rest = ops.drop_last();
        let o = ops.last();
        assert forall|i: int| 0 <= i < rest.len() implies cfg.in_time_range(#[trigger] rest[i].time) by {
            assert(rest[i] == ops[i]);
        }
        assert(ops[ops.len() - 1] == o);
        lemma_leaves_sum_to_fold(cfg, rest);
        assert(rest.push(o) =~= ops);
        lemma_pow2_pos(cfg.depth as nat);
        crate::coords::lemma_leaf_loc_bounds(cfg, o.loc);
        vstd::arithmetic::div_mod::lemma_div_pos_is_pos(o.time as int, cfg.time_quantum as int);
        lemma_index(cfg.leaf_time(o.time), cfg.leaf_loc(o.loc), n);
        lemma_sum_leaves_push(cfg, rest, o, n * n);
    }
}

/// The coordinate at `level` with indices `t` and `l`.
pub open spec fn cell(level: nat, t: int, l: int) -> RegionCoord {
    RegionCoord { level: level as u32, time_index: t as u32, loc_index: l as u32 }
}

/// `v` holds, at index `t * 2^k + l`, the aggregate of coordinate (k, t, l).
pub open spec fn level_ok(cfg: GridConfig, ops: Seq<OpData>, k: nat, v: Seq<RegionData>) -> bool {
    let n = pow2(k) as int;
    &&& v.len() == n * n
    &&& forall|j: int|
        0 <= j < v.len() ==> (#[trigger] v[j])@ == region_of(cfg, ops, cell(k, j / n, j % n))
}

/// A region's aggregate stays within the whole fold of `ops`.
pub proof fn lemma_region_bounded(cfg: GridConfig, ops: Seq<OpData>, c: RegionCoord)
    ensures
        region_of(cfg, ops, c).hash.len() == 32,
        fold_ops(ops).hash.len() == 32,
        0 <= region_of(cfg, ops, c).size <= fold_ops(ops).size,
        0 <= region_of(cfg, ops, c).count <= ops.len(),
    decreases ops.len(),
{
    if ops.len() > 0 {
        lemma_region_bounded(cfg, ops.drop_last(), c);
    }
}

/// A prefix of `ops` folds to no more size than all of it.
pub proof fn lemma_fold_prefix(ops: Seq<OpData>, i: int)
    requires
        0 <= i <= ops.len(),
    ensures
        0 <= fold_ops(ops.take(i)).size <= fold_ops(ops).size,
    decreases ops.len(),
{
    if i < ops.len() {
        assert(ops.drop_last().take(i) =~= ops.take(i));
        lemma_fold_prefix(ops.drop_last(), i);
    } else {
        assert(ops.take(i) =~= ops);
    }
    lemma_fold_nonneg(ops.take(i));
}

proof fn lemma_fold_nonneg(ops: Seq<OpData>)
    ensures
        0 <= fold_ops(ops).size,
    decreases ops.len(),
{
    if ops.len() > 0 {
        lemma_fold_nonneg(ops.drop_last());
    }
}

proof fn lemma_u8_shift(a: u8, b: u8, c: u8, d: u8, m: u8)
    ensures
        (((a ^ m) ^ b) ^ c) ^ d == (((a ^ b) ^ c) ^ d) ^ m,
        (((a ^ (b ^ m)) ^ c) ^ d) == (((a ^ b) ^ c) ^ d) ^ m,
        (((a ^ b) ^ (c ^ m)) ^ d) == (((a ^ b) ^ c) ^ d) ^ m,
        (((a ^ b) ^ c) ^ (d ^ m)) == (((a ^ b) ^ c) ^ d) ^ m,
{
    assert((((a ^ m) ^ b) ^ c) ^ d == (((a ^ b) ^ c) ^ d) ^ m) by (bit_vector);
    assert((((a ^ (b ^ m)) ^ c) ^ d) == (((a ^ b) ^ c) ^ d) ^ m) by (bit_vector);
    assert((((a ^ b) ^ (c ^ m)) ^ d) == (((a ^ b) ^ c) ^ d) ^ m) by (bit_vector);
    assert((((a ^ b) ^ c) ^ (d ^ m)) == (((a ^ b) ^ c) ^ d) ^ m) by (bit_vector);
}

/// The aggregate of four regions, in the order in which the children of a
/// coordinate are listed.
pub open spec fn combine4(x0: RegionModel, x1: RegionModel, x2: RegionModel, x3: RegionModel) -> RegionModel {
    combine(combine(combine(x0, x1), x2), x3)
}

/// Adding an operation to one of four regions adds it to their aggregate.
proof fn lemma_combine4_shift(x0: RegionModel, x1: RegionModel, x2: RegionModel, x3: RegionModel, m: RegionModel)
    requires
        x0.hash.len() == 32,
        x1.hash.len() == 32,
        x2.hash.len() == 32,
        x3.hash.len() == 32,
        m.hash.len() == 32,
    ensures
        combine4(combine(x0, m), x1, x2, x3) == combine(combine4(x0, x1, x2, x3), m),
        combine4(x0, combine(x1, m), x2, x3) == combine(combine4(x0, x1, x2, x3), m),
        combine4(x0, x1, combine(x2, m), x3) == combine(combine4(x0, x1, x2, x3), m),
        combine4(x0, x1, x2, combine(x3, m)) == combine(combine4(x0, x1, x2, x3), m),
{
    assert forall|i: int| 0 <= i < 32 implies {
        &&& (((x0.hash[i] ^ m.hash[i]) ^ x1.hash[i]) ^ x2.hash[i]) ^ x3.hash[i] == (((x0.hash[i] ^ x1.hash[i]) ^ x2.hash[i]) ^ x3.hash[i]) ^ m.hash[i]
        &&& (((x0.hash[i] ^ (x1.hash[i] ^ m.hash[i])) ^ x2.hash[i]) ^ x3.hash[i]) == (((x0.hash[i] ^ x1.hash[i]) ^ x2.hash[i]) ^ x3.hash[i]) ^ m.hash[i]
        &&& (((x0.hash[i] ^ x1.hash[i]) ^ (x2.hash[i] ^ m.hash[i])) ^ x3.hash[i]) == (((x0.hash[i] ^ x1.hash[i]) ^ x2.hash[i]) ^ x3.hash[i]) ^ m.hash[i]
        &&& (((x0.hash[i] ^ x1.hash[i]) ^ x2.hash[i]) ^ (x3.hash[i] ^ m.hash[i])) == (((x0.hash[i] ^ x1.hash[i]) ^ x2.hash[i]) ^ x3.hash[i]) ^ m.hash[i]
    } by {
        lemma_u8_shift(x0.hash[i], x1.hash[i], x2.hash[i], x3.hash[i], m.hash[i]);
    }
    let s = combine(combine4(x0, x1, x2, x3), m);
    assert(combine4(combine(x0, m), x1, x2, x3).hash =~= s.hash);
    assert(combine4(x0, combine(x1, m), x2, x3).hash =~= s.hash);
    assert(combine4(x0, x1, combine(x2, m), x3).hash =~= s.hash);
    assert(combine4(x0, x1, x2, combine(x3, m)).hash =~= s.hash);
}

/// The aggregate of a coordinate is the aggregate of its four children.
pub proof fn lemma_region_partition(cfg: GridConfig, ops: Seq<OpData>, c: RegionCoord)
    requires
        cfg.wf(),
        cfg.coord_wf(c),
        c.level < cfg.depth,
    ensures
        region_of(cfg, ops, c) == combine4(
            region_of(cfg, ops, child(c, 0, 0)),
            region_of(cfg, ops, child(c, 0, 1)),
            region_of(cfg, ops, child(c, 1, 0)),
            region_of(cfg, ops, child(c, 1, 1)),
        ),
    decreases ops.len(),
{
    if ops.len() == 0 {
        lemma_xor_seq_group(zero_hash(), zero_hash(), zero_hash());
    } else {
        let rest = ops.drop_last();
        let o = ops.last();
        lemma_region_partition(cfg, rest, c);
        lemma_region_bounded(cfg, rest, child(c, 0, 0));
        lemma_region_bounded(cfg, rest, child(c, 0, 1));
        lemma_region_bounded(cfg, rest, child(c, 1, 0));
        lemma_region_bounded(cfg, rest, child(c, 1, 1));
        lemma_pow2_pos((32 - cfg.depth) as nat);
        lemma2_to64();
        lemma_pow2_strictly_increases(c.level as nat, 8);
        lemma_children_partition(cfg, c, cfg.leaf_time(o.time), cfg.leaf_loc(o.loc));
        lemma_combine4_shift(
            region_of(cfg, rest, child(c, 0, 0)),
            region_of(cfg, rest, child(c, 0, 1)),
            region_of(cfg, rest, child(c, 1, 0)),
            region_of(cfg, rest, child(c, 1, 1)),
            op_model(o),
        );
    }
}

proof fn lemma_index(t: int, l: int, n: int)
    requires
        0 <= t < n,
        0 <= l < n,
    ensures
        0 <= t * n + l < n * n,
        (t * n + l) / n == t,
        (t * n + l) % n == l,
{
    lemma_fundamental_div_mod_converse(t * n + l, n, t, l);
    assert(0 <= t * n + l < n * n) by (nonlinear_arith)
        requires
            0 <= t < n,
            0 <= l < n,
    ;
}

proof fn lemma_split(j: int, n: int)
    requires
        0 <= j < n * n,
        n > 0,
    ensures
        0 <= j / n < n,
        0 <= j % n < n,
        j == (j / n) * n + j % n,
{
    lemma_fundamental_div_mod(j, n);
    vstd::arithmetic::div_mod::lemma_mod_bound(j, n);
    vstd::arithmetic::div_mod::lemma_div_pos_is_pos(j, n);
    vstd::arithmetic::div_mod::lemma_multiply_divide_lt(j, n, n);
    assert(n * (j / n) == (j / n) * n) by (nonlinear_arith);
}

/// Side of the grid at `level`, as a machine integer.
fn side(level: u32) -> (r: usize)
    requires
        level <= 8,
    ensures
        r == pow2(level as nat),
        1 <= r <= 256,
        r * r <= 65536,
{
    proof {
        lemma2_to64();
        lemma_pow2_pos(level as nat);
        if level < 8 {
            lemma_pow2_strictly_increases(level as nat, 8);
        }
    }
    let r = pow2_u64(level) as usize;
    assert(r * r <= 65536) by (nonlinear_arith)
        requires
            1 <= r <= 256,
    ;
    r
}

/// The floor level: every operation folded into the floor cell holding it.
fn build_leaves(cfg: &GridConfig, ops: &Vec<OpData>) -> (v: Vec<RegionData>)
    requires
        cfg.wf(),
        forall|i: int| 0 <= i < ops@.len() ==> cfg.in_time_range(#[trigger] ops@[i].time),
        fold_ops(ops@).size <= u32::MAX,
        ops@.len() <= u32::MAX,
    ensures
        level_ok(*cfg, ops@, cfg.depth as nat, v@),
{
    let n = side(cfg.depth);
    let total = n * n;
    let mut v: Vec<RegionData> = Vec::new();
    let mut j: usize = 0;
    while j < total
        invariant
            total == n * n,
            v@.len() == j,
            j <= total,
            forall|jj: int| 0 <= jj < j ==> (#[trigger] v@[jj])@ == zero_model(),
        decreases total - j,
    {
        v.push(RegionData::zero());
        j = j + 1;
    }
    assert(ops@.take(0) =~= Seq::<OpData>::empty());
    let mut i: usize = 0;
    while i < ops.len()
        invariant
            cfg.wf(),
            n == pow2(cfg.depth as nat),
            1 <= n <= 256,
            n * n <= 65536,
            forall|i: int| 0 <= i < ops@.len() ==> cfg.in_time_range(#[trigger] ops@[i].time),
            fold_ops(ops@).size <= u32::MAX,
            ops@.len() <= u32::MAX,
            i <= ops@.len(),
            v@.len() == n * n,
            forall|j: int|
                0 <= j < n * n ==> (#[trigger] v@[j])@ == region_of(
                    *cfg,
                    ops@.take(i as int),
                    cell(cfg.depth as nat, j / n as int, j % n as int),
                ),
        decreases ops@.len() - i,
    {
        let o = ops[i];
        let leaf = cfg.leaf_of(o.time, o.loc);
        let ghost pre = ops@.take(i as int);
        let ghost post = ops@.take(i + 1);
        proof {
            lemma_index(leaf.time_index as int, leaf.loc_index as int, n as int);
            assert(post.drop_last() =~= pre);
            assert(post.last() == o);
        }
        let idx = leaf.time_index as usize * n + leaf.loc_index as usize;
        proof {
            lemma_region_bounded(*cfg, post, leaf);
            lemma_fold_prefix(ops@, i + 1);
            assert(cell(cfg.depth as nat, idx as int / n as int, idx as int % n as int) == leaf);
        }
        let cur = v[idx];
        let nv = cur.add(RegionData::from_op(o.hash, o.size));
        v.set(idx, nv);
        proof {
            assert forall|j: int| 0 <= j < n * n implies (#[trigger] v@[j])@ == region_of(
                *cfg,
                post,
                cell(cfg.depth as nat, j / n as int, j % n as int),
            ) by {
                lemma_split(j, n as int);
                lemma2_to64();
                let cj = cell(cfg.depth as nat, j / n as int, j % n as int);
                assert(pow2((cfg.depth - cj.level) as nat) == 1);
                if j != idx {
                    assert(!cfg.contains(cj, o.time, o.loc));
                }
            }
        }
        i = i + 1;
    }
    assert(ops@.take(ops@.len() as int) =~= ops@);
    v
}

/// Level `k` of the grid from level `k + 1`: each region combines its four
/// children.
fn coarser(cfg: &GridConfig, ops: Ghost<Seq<OpData>>, k: u32, finer: &Vec<RegionData>) -> (v: Vec<RegionData>)
    requires
        cfg.wf(),
        k < cfg.depth,
        level_ok(*cfg, ops@, (k + 1) as nat, finer@),
        fold_ops(ops@).size <= u32::MAX,
        ops@.len() <= u32::MAX,
    ensures
        level_ok(*cfg, ops@, k as nat, v@),
{
    let n = side(k);
    let m = side(k + 1);
    proof {
        lemma_pow2_unfold((k + 1) as nat);
    }
    let total = n * n;
    let mut v: Vec<RegionData> = Vec::new();
    let mut j: usize = 0;
    while j < total
        invariant
            cfg.wf(),
            k < cfg.depth,
            level_ok(*cfg, ops@, (k + 1) as nat, finer@),
            fold_ops(ops@).size <= u32::MAX,
            ops@.len() <= u32::MAX,
            n == pow2(k as nat),
            m == pow2((k + 1) as nat),
            m == 2 * n,
            m * m <= 65536,
            1 <= n <= 256,
            total == n * n,
            j <= total,
            v@.len() == j,
            forall|jj: int|
                0 <= jj < j ==> (#[trigger] v@[jj])@ == region_of(
                    *cfg,
                    ops@,
                    cell(k as nat, jj / n as int, jj % n as int),
                ),
        decreases total - j,
    {
        proof {
            lemma_split(j as int, n as int);
        }
        let t = j / n;
        let l = j % n;
        let ghost c = cell(k as nat, t as int, l as int);
        proof {
            lemma_index(2 * t as int, 2 * l as int, m as int);
            lemma_index(2 * t as int, 2 * l + 1, m as int);
            lemma_index(2 * t + 1, 2 * l as int, m as int);
            lemma_index(2 * t + 1, 2 * l + 1, m as int);
            lemma2_to64();
            lemma_region_partition(*cfg, ops@, c);
            lemma_region_bounded(*cfg, ops@, c);
            lemma_region_bounded(*cfg, ops@, child(c, 0, 0));
            lemma_region_bounded(*cfg, ops@, child(c, 0, 1));
            lemma_region_bounded(*cfg, ops@, child(c, 1, 0));
            lemma_region_bounded(*cfg, ops@, child(c, 1, 1));
        }
        let i00 = (2 * t) * m + 2 * l;
        let i10 = (2 * t + 1) * m + 2 * l;
        let a = finer[i00].add(finer[i00 + 1]);
        let b = a.add(finer[i10]);
        let r = b.add(finer[i10 + 1]);
        v.push(r);
        j = j + 1;
    }
    v
}

/// The aggregates of every region of the grid over one snapshot of a node's
/// operations. Once built it is never changed: a new snapshot gets a new
/// tree.
pub struct CoverageTree {
    cfg: GridConfig,
    /// Entry `d` holds level `depth - d`, see [`level_ok`].
    levels: Vec<Vec<RegionData>>,
    ops: Ghost<Seq<OpData>>,
}

impl CoverageTree {
    /// The grid of this tree.
    pub closed spec fn config(&self) -> GridConfig {
        self.cfg
    }

    /// The operations this tree was built from.
    pub closed spec fn snapshot(&self) -> Seq<OpData> {
        self.ops@
    }

    /// What the tree holds for coordinate `c`.
    pub open spec fn region(&self, c: RegionCoord) -> RegionModel {
        region_of(self.config(), self.snapshot(), c)
    }

    pub closed spec fn wf(&self) -> bool {
        &&& self.cfg.wf()
        &&& forall|i: int| 0 <= i < self.ops@.len() ==> self.cfg.in_time_range(#[trigger] self.ops@[i].time)
        &&& self.levels@.len() == self.cfg.depth + 1
        &&& forall|d: int|
            0 <= d <= self.cfg.depth ==> level_ok(
                self.cfg,
                self.ops@,
                (self.cfg.depth - d) as nat,
                #[trigger] self.levels@[d]@,
            )
    }

    /// Fold every operation, at every level, into the region that contains it.
    pub fn build(cfg: GridConfig, ops: &Vec<OpData>) -> (t: Self)
        requires
            cfg.wf(),
            forall|i: int| 0 <= i < ops@.len() ==> cfg.in_time_range(#[trigger] ops@[i].time),
            fold_ops(ops@).size <= u32::MAX,
            ops@.len() <= u32::MAX,
        ensures
            t.wf(),
            t.config() == cfg,
            t.snapshot() == ops@,
    {
        let mut cur = build_leaves(&cfg, ops);
        let mut levels: Vec<Vec<RegionData>> = Vec::new();
        let mut k: u32 = cfg.depth;
        while k > 0
            invariant
                cfg.wf(),
                k <= cfg.depth,
                fold_ops(ops@).size <= u32::MAX,
                ops@.len() <= u32::MAX,
                levels@.len() == cfg.depth - k,
                level_ok(cfg, ops@, k as nat, cur@),
                forall|d: int|
                    0 <= d < levels@.len() ==> level_ok(
                        cfg,
                        ops@,
                        (cfg.depth - d) as nat,
                        #[trigger] levels@[d]@,
                    ),
            decreases k,
        {
            let next = coarser(&cfg, Ghost(ops@), k - 1, &cur);
            levels.push(cur);
            cur = next;
            k = k - 1;
        }
        levels.push(cur);
        CoverageTree { cfg, levels, ops: Ghost(ops@) }
    }

    /// The aggregate of the operations that coordinate `c` contains.
    pub fn query(&self, c: RegionCoord) -> (r: RegionData)
        requires
            self.wf(),
            self.config().coord_wf(c),
        ensures
            r@ == self.region(c),
    {
        let n = side(c.level);
        let d = (self.cfg.depth - c.level) as usize;
        proof {
            lemma_index(c.time_index as int, c.loc_index as int, n as int);
            assert(level_ok(self.cfg, self.ops@, (self.cfg.depth - d) as nat, self.levels@[d as int]@));
        }
        let idx = c.time_index as usize * n + c.loc_index as usize;
        self.levels[d][idx]
    }

    /// What a well-formed tree guarantees of its grid and its operations.
    pub proof fn lemma_wf_facts(&self)
        requires
            self.wf(),
        ensures
            self.config().wf(),
            forall|i: int|
                0 <= i < self.snapshot().len() ==> self.config().in_time_range(
                    #[trigger] self.snapshot()[i].time,
                ),
    {
    }

    /// The tree's region of the whole space, which combines all of its
    /// leaves, is the fold of every operation of its snapshot.
    pub proof fn lemma_tree_consistency(&self)
        requires
            self.wf(),
        ensures
            self.region(GridConfig::root_spec()) == fold_ops(self.snapshot()),
    {
        lemma_root_is_fold(self.cfg, self.ops@);
    }

    /// Summing the aggregates of all the tree's floor cells gives the fold
    /// of every operation of its snapshot into one region.
    pub proof fn lemma_leaves_sum(&self)
        requires
            self.wf(),
        ensures
            sum_leaves(
                self.config(),
                self.snapshot(),
                num_leaves(self.config()),
            ) == fold_ops(self.snapshot()),
    {
        lemma_leaves_sum_to_fold(self.cfg, self.ops@);
    }

    pub fn config_exec(&self) -> (r: GridConfig)
        requires
            self.wf(),
        ensures
            r == self.config(),
            r.wf(),
    {
        self.cfg
    }
}

} // verus!
