//! The cluster-chain audit of a FAT12/16/32 table: entries that link into a
//! cluster marked bad, clusters that two entries link to (cross-linked
//! chains), and allocated chains that no directory entry claims (orphans).
//!
//! The table is read as laid out on disk (the entry of cluster `c` as
//! [`fat_entry_spec`] decodes it); each finding carries its first occurrence
//! and how many there are.
use vstd::prelude::*;
use crate::audit::{anomalies_view, anomaly_spec, has_kind, kind_tag, u32_ordered, Anomaly, AnomalyKind, SpecAnomaly, SpecAnomalyKind};
use crate::boot::FatVariant;
use crate::fat::{fat_entry, fat_entry_spec, is_bad, is_bad_spec};
use crate::fs::{FatFs, Vol};

verus! {

/// Number of table entries examined: the volume's clusters plus the two
/// reserved entries, bounded by the entries the cached FAT holds (and by
/// the 32-bit cluster range).
pub open spec fn table_len(v: Vol) -> nat {
    let want = v.geom.count_of_clusters + 2;
    let have: int = match v.geom.variant {
        FatVariant::Fat12 => (v.fat.len() * 2 / 3) as int,
        FatVariant::Fat16 => (v.fat.len() / 2) as int,
        _ => (v.fat.len() / 4) as int,
    };
    let a = if want < have { want } else { have };
    (if a < 0xFFFF_FFFF { a } else { 0xFFFF_FFFF }) as nat
}

/// The table entry of cluster `c`.
pub open spec fn ent(v: Vol, c: int) -> u32 {
    fat_entry_spec(v.fat, v.geom.variant, c as u32)
}

/// Whether `t` numbers a data cluster of the examined table.
pub open spec fn in_table(v: Vol, t: int) -> bool {
    2 <= t < table_len(v)
}

/// Cluster `c`'s entry links to a cluster whose own entry is the bad marker.
pub open spec fn bad_link(v: Vol, c: int) -> bool {
    in_table(v, ent(v, c) as int) && is_bad_spec(v.geom.variant, ent(v, ent(v, c) as int))
}

/// Some cluster below `c` (from 2 on) links to `t`.
pub open spec fn linked_before(v: Vol, t: int, c: int) -> bool {
    exists|c2: int| 2 <= c2 < c && #[trigger] ent(v, c2) == t
}

/// Cluster `c`'s entry links to a data cluster that an earlier entry already
/// links to.
pub open spec fn cross_link(v: Vol, c: int) -> bool {
    in_table(v, ent(v, c) as int) && linked_before(v, ent(v, c) as int, c)
}

/// Cluster `h` is allocated (its entry neither free nor the bad marker).
pub open spec fn allocated(v: Vol, h: int) -> bool {
    ent(v, h) != 0 && !is_bad_spec(v.geom.variant, ent(v, h))
}

/// Cluster `h` heads an orphaned chain: allocated, linked to by no entry of
/// the table, claimed by no directory entry (`refs`), and not the FAT32 root
/// directory's first cluster.
pub open spec fn orphan_head(v: Vol, refs: Set<u32>, h: int) -> bool {
    &&& allocated(v, h)
    &&& !linked_before(v, h, table_len(v) as int)
    &&& !refs.contains(h as u32)
    &&& !(v.geom.variant == FatVariant::Fat32 && h == v.geom.root_cluster)
}

/// How many `c` in `2..n` satisfy `p`.
pub open spec fn count_where(p: spec_fn(int) -> bool, n: nat) -> nat
    decreases n,
{
    if n <= 2 {
        0
    } else {
        count_where(p, (n - 1) as nat) + if p(n - 1) { 1nat } else { 0nat }
    }
}

/// The least `c` in `2..n` satisfying `p`.
pub open spec fn first_where(p: spec_fn(int) -> bool, n: nat) -> Option<int>
    decreases n,
{
    if n <= 2 {
        None
    } else {
        match first_where(p, (n - 1) as nat) {
            Some(i) => Some(i),
            None => if p(n - 1) { Some(n - 1) } else { None },
        }
    }
}

/// `first_where` names a match below `n` exactly when one exists.
proof fn lemma_first_where(p: spec_fn(int) -> bool, n: nat)
    ensures
        first_where(p, n) matches Some(i) ==> 2 <= i < n && p(i),
        first_where(p, n) is None ==> count_where(p, n) == 0,
        first_where(p, n) is Some ==> count_where(p, n) >= 1,
        count_where(p, n) <= if n < 2 { 0 } else { n - 2 },
    decreases n,
{
    if n > 2 {
        lemma_first_where(p, (n - 1) as nat);
    }
}

/// Entries linking into a bad-marked cluster.
pub open spec fn bad_pred(v: Vol) -> spec_fn(int) -> bool {
    |c: int| bad_link(v, c)
}

/// Entries repeating an earlier link.
pub open spec fn cross_pred(v: Vol) -> spec_fn(int) -> bool {
    |c: int| cross_link(v, c)
}

/// Heads of orphaned chains.
pub open spec fn orphan_pred(v: Vol, refs: Set<u32>) -> spec_fn(int) -> bool {
    |h: int| orphan_head(v, refs, h)
}

/// The chain findings of the volume `v`, given the first clusters `refs` that
/// its directory entries claim: a bad-link finding, a cross-link finding and
/// an orphan finding, each present when it has a first occurrence.
pub open spec fn chain_anomalies(v: Vol, refs: Set<u32>) -> Seq<SpecAnomaly> {
    let n = table_len(v);
    let bad = match first_where(bad_pred(v), n) {
        None => Seq::empty(),
        Some(c) => seq![
            anomaly_spec(
                SpecAnomalyKind::ChainThroughBadCluster {
                    cluster: c as u32,
                    bad: ent(v, c),
                    links: count_where(bad_pred(v), n) as u64,
                },
            ),
        ],
    };
    let cross = match first_where(cross_pred(v), n) {
        None => Seq::empty(),
        Some(c) => seq![
            anomaly_spec(
                SpecAnomalyKind::ChainCrossLinked {
                    cluster: c as u32,
                    shared: ent(v, c),
                    links: count_where(cross_pred(v), n) as u64,
                },
            ),
        ],
    };
    let orphan = match first_where(orphan_pred(v, refs), n) {
        None => Seq::empty(),
        Some(h) => seq![
            anomaly_spec(
                SpecAnomalyKind::OrphanedChain {
                    cluster: h as u32,
                    chains: count_where(orphan_pred(v, refs), n) as u64,
                },
            ),
        ],
    };
    bad + cross + orphan
}

/// An optional position as a `u64`.
pub open spec fn as_u64(o: Option<int>) -> Option<u64> {
    match o {
        Some(i) => Some(i as u64),
        None => None,
    }
}

/// Linking one more entry adds exactly its target.
proof fn lemma_linked_step(v: Vol, t: int, c: int)
    requires
        c >= 2,
    ensures
        linked_before(v, t, c + 1) == (linked_before(v, t, c) || ent(v, c) == t),
{
    if linked_before(v, t, c + 1) && ent(v, c) != t {
        let c2 = choose|c2: int| 2 <= c2 < c + 1 && #[trigger] ent(v, c2) == t;
        assert(c2 < c);
    }
    if ent(v, c) == t {
        assert(2 <= c < c + 1 && ent(v, c) == t);
    }
    if linked_before(v, t, c) {
        let c2 = choose|c2: int| 2 <= c2 < c && #[trigger] ent(v, c2) == t;
        assert(2 <= c2 < c + 1);
    }
}

/// The examined table length, computed.
fn table_len_exec(fs: &FatFs) -> (n: u64)
    ensures
        n == table_len(fs.vol()),
        n <= fs.vol().fat.len(),
{
    let g = fs.geometry();
    let len = fs.fat_bytes().len() as u64;
    let want = g.count_of_clusters as u64 + 2;
    let have = match g.variant {
        FatVariant::Fat12 => len / 3 * 2 + (len % 3) * 2 / 3,
        FatVariant::Fat16 => len / 2,
        _ => len / 4,
    };
    assert(g.variant == FatVariant::Fat12 ==> have == len * 2 / 3) by {
        if g.variant == FatVariant::Fat12 {
            assert(len / 3 * 2 + (len % 3) * 2 / 3 == len * 2 / 3) by (nonlinear_arith);
        }
    }
    let a = if want < have {
        want
    } else {
        have
    };
    if a < 0xFFFF_FFFF {
        a
    } else {
        0xFFFF_FFFF
    }
}

/// Append the chain findings of the volume `fs`, given the first clusters
/// `refs` that its directory entries claim.
pub(crate) fn audit_chains(fs: &FatFs, refs: &std::collections::BTreeSet<u32>, out: &mut Vec<Anomaly>)
    requires
        u32_ordered(),
    ensures
        anomalies_view(final(out)@) == anomalies_view(old(out)@) + chain_anomalies(fs.vol(), refs@),
{
    let ghost v = fs.vol();
    let fat = fs.fat_bytes();
    let g = fs.geometry();
    let variant = g.variant;
    let n = table_len_exec(fs);
    // `hit[t]`: some entry examined so far links to `t`.
    let mut hit: Vec<bool> = Vec::new();
    let mut k: u64 = 0;
    while k < n
        invariant
            k <= n,
            hit@.len() == k,
            forall|t: int| 0 <= t < k ==> !#[trigger] hit@[t],
        decreases n - k,
    {
        hit.push(false);
        k = k + 1;
    }
    let mut bad_count: u64 = 0;
    let mut bad_first: Option<u64> = None;
    let mut cross_count: u64 = 0;
    let mut cross_first: Option<u64> = None;
    let mut c: u64 = 2;
    assert(forall|t: int| 2 <= t < n ==> !linked_before(v, t, 2));
    while c < n
        invariant
            v == fs.vol(),
            fat@ == v.fat,
            variant == v.geom.variant,
            n == table_len(v),
            n <= 0xFFFF_FFFF,
            2 <= c,
            c <= n || n < 2,
            n < 2 ==> c == 2,
            hit@.len() == n,
            forall|t: int| 2 <= t < n ==> #[trigger] hit@[t] == linked_before(v, t, c as int),
            bad_count == count_where(bad_pred(v), c as nat),
            bad_first == as_u64(first_where(bad_pred(v), c as nat)),
            cross_count == count_where(cross_pred(v), c as nat),
            cross_first == as_u64(first_where(cross_pred(v), c as nat)),
            bad_count <= c,
            cross_count <= c,
        decreases n - c,
    {
        let t = fat_entry(fat, variant, c as u32);
        assert(t == ent(v, c as int));
        proof {
            lemma_first_where(bad_pred(v), c as nat);
            lemma_first_where(cross_pred(v), c as nat);
        }
        if 2 <= t && (t as u64) < n {
            let tn = fat_entry(fat, variant, t);
            if is_bad(variant, tn) {
                bad_count = bad_count + 1;
                if bad_first.is_none() {
                    bad_first = Some(c);
                }
            }
            assert(bad_pred(v)(c as int) == is_bad_spec(variant, tn));
            let was = hit[t as usize];
            assert(cross_pred(v)(c as int) == was);
            if was {
                cross_count = cross_count + 1;
                if cross_first.is_none() {
                    cross_first = Some(c);
                }
            } else {
                hit.set(t as usize, true);
            }
        } else {
            assert(!bad_pred(v)(c as int));
            assert(!cross_pred(v)(c as int));
        }
        proof {
            assert forall|t2: int| 2 <= t2 < n implies #[trigger] hit@[t2] == linked_before(v, t2, c + 1) by {
                lemma_linked_step(v, t2, c as int);
            }
        }
        c = c + 1;
    }
    proof {
        if n < 2 {
            assert(count_where(bad_pred(v), n as nat) == 0);
        }
    }
    // Pass 2: orphaned chain heads.
    let mut orphan_count: u64 = 0;
    let mut orphan_first: Option<u64> = None;
    let mut h: u64 = 2;
    while h < n
        invariant
            v == fs.vol(),
            fat@ == v.fat,
            variant == v.geom.variant,
            g.root_cluster == v.geom.root_cluster,
            n == table_len(v),
            n <= 0xFFFF_FFFF,
            u32_ordered(),
            2 <= h,
            h <= n || n < 2,
            n < 2 ==> h == 2,
            hit@.len() == n,
            forall|t: int| 2 <= t < n ==> #[trigger] hit@[t] == linked_before(v, t, n as int),
            orphan_count == count_where(orphan_pred(v, refs@), h as nat),
            orphan_first == as_u64(first_where(orphan_pred(v, refs@), h as nat)),
            orphan_count <= h,
        decreases n - h,
    {
        let e = fat_entry(fat, variant, h as u32);
        let claimed = refs.contains(&(h as u32));
        let is_root = variant == FatVariant::Fat32 && h == g.root_cluster as u64;
        proof {
            lemma_first_where(orphan_pred(v, refs@), h as nat);
        }
        assert(e == ent(v, h as int));
        assert(claimed == refs@.contains(h as u32));
        let hh = hit[h as usize];
        assert(orphan_pred(v, refs@)(h as int) == (e != 0 && !is_bad_spec(variant, e) && !hh && !claimed && !is_root));
        if e != 0 && !is_bad(variant, e) && !hh && !claimed && !is_root {
            orphan_count = orphan_count + 1;
            if orphan_first.is_none() {
                orphan_first = Some(h);
            }
        }
        h = h + 1;
    }
    let ghost before = anomalies_view(out@);
    let ghost fin_c = if n < 2 { 2 } else { n };
    proof {
        if n < 2 {
            assert(first_where(bad_pred(v), n as nat) is None);
            assert(first_where(cross_pred(v), n as nat) is None);
            assert(first_where(orphan_pred(v, refs@), n as nat) is None);
            assert(count_where(bad_pred(v), 2) == 0);
            assert(first_where(bad_pred(v), 2) is None);
            assert(first_where(cross_pred(v), 2) is None);
            assert(first_where(orphan_pred(v, refs@), 2) is None);
        }
        lemma_first_where(bad_pred(v), n as nat);
        lemma_first_where(cross_pred(v), n as nat);
        lemma_first_where(orphan_pred(v, refs@), n as nat);
    }
    let ghost expect = chain_anomalies(v, refs@);
    match bad_first {
        Some(c0) => {
            let b = fat_entry(fat, variant, c0 as u32);
            out.push(Anomaly::new(AnomalyKind::ChainThroughBadCluster { cluster: c0 as u32, bad: b, links: bad_count }));
        },
        None => {},
    }
    match cross_first {
        Some(c0) => {
            let t = fat_entry(fat, variant, c0 as u32);
            out.push(Anomaly::new(AnomalyKind::ChainCrossLinked { cluster: c0 as u32, shared: t, links: cross_count }));
        },
        None => {},
    }
    match orphan_first {
        Some(h0) => {
            out.push(Anomaly::new(AnomalyKind::OrphanedChain { cluster: h0 as u32, chains: orphan_count }));
        },
        None => {},
    }
    proof {
        assert(anomalies_view(out@) =~= before + expect);
    }
}

/// `first_where` finds a match exactly when one exists.
proof fn lemma_first_where_exists(p: spec_fn(int) -> bool, n: nat)
    ensures
        first_where(p, n) is Some <==> exists|i: int| 2 <= i < n && #[trigger] p(i),
    decreases n,
{
    if n > 2 {
        lemma_first_where_exists(p, (n - 1) as nat);
        if first_where(p, n) is None {
            assert forall|i: int| 2 <= i < n implies !#[trigger] p(i) by {
                if i < n - 1 {
                    assert(!(exists|j: int| 2 <= j < n - 1 && #[trigger] p(j)));
                }
            }
        }
    }
}

/// The chain audit reports a link into a bad cluster exactly when some entry
/// links to a bad-marked cluster; a cross-link exactly when two entries link
/// to the same data cluster; and an orphaned chain exactly when some
/// allocated cluster is linked to by no entry and claimed by no directory
/// entry (the FAT32 root excepted).
pub proof fn lemma_chain_findings_iff(v: Vol, refs: Set<u32>)
    ensures
        has_kind(chain_anomalies(v, refs), 5) <==> exists|c: int| 2 <= c < table_len(v) && #[trigger] bad_link(v, c),
        has_kind(chain_anomalies(v, refs), 6) <==> exists|c1: int, c2: int|
            2 <= c1 < c2 < table_len(v) && in_table(v, #[trigger] ent(v, c2) as int) && #[trigger] ent(v, c1) == ent(v, c2),
        has_kind(chain_anomalies(v, refs), 7) <==> exists|h: int| 2 <= h < table_len(v) && #[trigger] orphan_head(v, refs, h),
{
    let n = table_len(v);
    lemma_first_where_exists(bad_pred(v), n);
    lemma_first_where_exists(cross_pred(v), n);
    lemma_first_where_exists(orphan_pred(v, refs), n);
    let xs = chain_anomalies(v, refs);
    let b = first_where(bad_pred(v), n);
    let c = first_where(cross_pred(v), n);
    let o = first_where(orphan_pred(v, refs), n);
    let bl: int = if b is Some { 1 } else { 0 };
    let cl: int = if c is Some { 1 } else { 0 };
    assert(xs.len() == bl + cl + if o is Some { 1int } else { 0int });
    // Position of each kind in the findings.
    assert forall|i: int| 0 <= i < xs.len() implies kind_tag(#[trigger] xs[i].kind) == if i < bl { 5int } else if i
        < bl + cl { 6int } else { 7int } by {}
    if b is Some {
        assert(kind_tag(xs[0].kind) == 5);
    }
    if c is Some {
        assert(kind_tag(xs[bl].kind) == 6);
    }
    if o is Some {
        assert(kind_tag(xs[bl + cl].kind) == 7);
    }
    if exists|c1: int, c2: int|
        2 <= c1 < c2 < n && in_table(v, #[trigger] ent(v, c2) as int) && #[trigger] ent(v, c1) == ent(v, c2) {
        let (c1, c2) = choose|c1: int, c2: int|
            2 <= c1 < c2 < n && in_table(v, #[trigger] ent(v, c2) as int) && #[trigger] ent(v, c1) == ent(v, c2);
        assert(cross_pred(v)(c2));
    }
    if exists|i: int| 2 <= i < n && #[trigger] cross_pred(v)(i) {
        let i = choose|i: int| 2 <= i < n && #[trigger] cross_pred(v)(i);
        let c1 = choose|c1: int| 2 <= c1 < i && #[trigger] ent(v, c1) == ent(v, i) as int;
        assert(2 <= c1 < i < n && in_table(v, ent(v, i) as int) && ent(v, c1) == ent(v, i));
    }
    if exists|cc: int| 2 <= cc < n && #[trigger] bad_link(v, cc) {
        let cc = choose|cc: int| 2 <= cc < n && #[trigger] bad_link(v, cc);
        assert(bad_pred(v)(cc));
    }
    if exists|h: int| 2 <= h < n && #[trigger] orphan_head(v, refs, h) {
        let h = choose|h: int| 2 <= h < n && #[trigger] orphan_head(v, refs, h);
        assert(orphan_pred(v, refs)(h));
    }
}

} // verus!
