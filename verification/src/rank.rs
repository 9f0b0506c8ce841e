//! Frecency ranking: a total order over catalog entries combining a usage
//! rank with the recency of the last launch.
//!
//! The score of an entry with a history record is `rank / (sqrt(dt)/10 + 5)`
//! with `dt` the seconds since its last launch, clamped at zero. Scores are
//! compared in integer arithmetic: with `den(dt) = isqrt(2^62 * dt) +
//! 50 * 2^31` (a fixed-point `2^31 * (sqrt(dt) + 50)`), entry `a` outranks
//! entry `b` when `rank_a * den_b > rank_b * den_a`. Entries whose
//! cross-products are equal are ordered by `dt` itself, more recent first,
//! and only equal `dt` falls back to the lexicographic order of the display
//! titles, canonical path last. Between entries of equal rank this order is exactly the order of
//! the real-valued scores: the denominator never decreases with `dt`, and the
//! `dt` tie-break separates every pair the fixed point cannot. Between
//! entries of different ranks the comparison is exact up to the fixed
//! point's `2^-31` relative precision; a pair of real scores closer than
//! that is ordered by recency and title instead. The whole order is total
//! and deterministic.

use vstd::prelude::*;

use crate::catalog::{Program, ProgramV};
use crate::history::{History, HistoryEntry};
use crate::text::{lex2_le, lex2_le_exec, lemma_lex2_le_total, lemma_lex2_le_trans};

verus! {

broadcast use vstd::seq_lib::group_to_multiset_ensures;

/// `r` is the integer square root of `x`.
pub open spec fn is_sqrt(x: nat, r: nat) -> bool {
    r * r <= x && (r + 1) * (r + 1) > x
}

proof fn lemma_sqrt_exists(x: nat)
    ensures
        exists|r: nat| #[trigger] is_sqrt(x, r),
    decreases x,
{
    if x == 0 {
        assert(0 * 0 <= 0 && (0 + 1) * (0 + 1) > 0) by (nonlinear_arith);
        assert(is_sqrt(0, 0));
    } else {
        lemma_sqrt_exists((x - 1) as nat);
        let r = choose|r: nat| #[trigger] is_sqrt((x - 1) as nat, r);
        if (r + 1) * (r + 1) <= x {
            assert(x - 1 < (r + 1) * (r + 1));
            assert(x == (r + 1) * (r + 1));
            assert((r + 2) * (r + 2) > x) by (nonlinear_arith)
                requires
                    x == (r + 1) * (r + 1),
            ;
            assert(is_sqrt(x, r + 1));
        } else {
            assert(is_sqrt(x, r));
        }
    }
}

proof fn lemma_sqrt_unique(x: nat, r1: nat, r2: nat)
    requires
        is_sqrt(x, r1),
        is_sqrt(x, r2),
    ensures
        r1 == r2,
{
    if r1 < r2 {
        assert((r1 + 1) * (r1 + 1) <= r2 * r2) by (nonlinear_arith)
            requires
                r1 + 1 <= r2,
        ;
    }
    if r2 < r1 {
        assert((r2 + 1) * (r2 + 1) <= r1 * r1) by (nonlinear_arith)
            requires
                r2 + 1 <= r1,
        ;
    }
}

/// The integer square root of `x`.
pub open spec fn sqrt_floor(x: nat) -> nat {
    choose|r: nat| #[trigger] is_sqrt(x, r)
}

pub proof fn lemma_sqrt_floor(x: nat)
    ensures
        is_sqrt(x, sqrt_floor(x)),
{
    lemma_sqrt_exists(x);
}

/// Seconds since the last launch, clamped at zero against clock skew.
pub open spec fn dt_of(now: u64, access: u64) -> nat {
    if access <= now {
        (now - access) as nat
    } else {
        0
    }
}

/// The square root never decreases as its argument grows.
pub proof fn lemma_sqrt_floor_monotone(x: nat, y: nat)
    requires
        x <= y,
    ensures
        sqrt_floor(x) <= sqrt_floor(y),
{
    lemma_sqrt_floor(x);
    lemma_sqrt_floor(y);
    let sx = sqrt_floor(x);
    let sy = sqrt_floor(y);
    if sx > sy {
        assert((sy + 1) * (sy + 1) <= sx * sx) by (nonlinear_arith)
            requires
                sy + 1 <= sx,
        ;
    }
}

/// The score denominator of an entry last launched `dt` seconds ago, in
/// units of `2^-31`: `2^31 * sqrt(dt) + 50 * 2^31`, with the square root
/// rounded down.
pub open spec fn den_spec(dt: nat) -> nat {
    sqrt_floor(0x4000000000000000 * dt) + 0x1900000000
}

/// The denominator never decreases with `dt`.
pub proof fn lemma_den_spec_monotone(d1: nat, d2: nat)
    requires
        d1 <= d2,
    ensures
        den_spec(d1) <= den_spec(d2),
{
    assert(0x4000000000000000 * d1 <= 0x4000000000000000 * d2) by (nonlinear_arith)
        requires
            d1 <= d2,
    ;
    lemma_sqrt_floor_monotone(0x4000000000000000 * d1, 0x4000000000000000 * d2);
}

/// `sqrt_floor(2^62 * dt)`, computed by binary search.
fn scaled_sqrt(dt: u64) -> (r: u64)
    ensures
        r as nat == sqrt_floor(0x4000000000000000 * dt as nat),
        r <= 0x8000000000000000,
{
    let y: u128 = (dt as u128) * 0x4000000000000000;
    let mut lo: u128 = 0;
    let mut hi: u128 = 0x8000000000000000;
    proof {
        assert(y < 0x8000000000000000 * 0x8000000000000000) by (nonlinear_arith)
            requires
                y == dt as int * 0x4000000000000000,
                dt <= 0xFFFFFFFFFFFFFFFFu64,
        ;
    }
    while lo + 1 < hi
        invariant
            y == 0x4000000000000000 * dt as nat,
            lo < hi <= 0x8000000000000000,
            lo * lo <= y,
            hi * hi > y,
        decreases hi - lo,
    {
        let mid = lo + (hi - lo) / 2;
        proof {
            assert(lo < mid < hi);
            assert(mid * mid < 0x8000000000000000 * 0x8000000000000000) by (nonlinear_arith)
                requires
                    0 <= mid < 0x8000000000000000,
            ;
        }
        if mid * mid <= y {
            lo = mid;
        } else {
            hi = mid;
        }
    }
    proof {
        assert(hi == lo + 1);
        assert(is_sqrt(y as nat, lo as nat));
        lemma_sqrt_floor(y as nat);
        lemma_sqrt_unique(y as nat, lo as nat, sqrt_floor(y as nat));
    }
    lo as u64
}

/// Seconds since `access` at time `now`, clamped at zero.
pub fn dt_exec(now: u64, access: u64) -> (r: u64)
    ensures
        r as nat == dt_of(now, access),
{
    if access <= now {
        now - access
    } else {
        0
    }
}

/// The score denominator for an entry last launched `dt` seconds ago,
/// always positive.
pub fn den_from_dt(dt: u64) -> (r: u64)
    ensures
        r as nat == den_spec(dt as nat),
        0x1900000000 <= r <= 0x8000001900000000,
{
    let s = scaled_sqrt(dt);
    s + 0x1900000000
}

/// The score denominator for an entry with access time `access` at time
/// `now`, always positive.
pub fn den_of(now: u64, access: u64) -> (r: u64)
    ensures
        r as nat == den_spec(dt_of(now, access)),
        0x1900000000 <= r <= 0x8000001900000000,
{
    den_from_dt(dt_exec(now, access))
}

/// The display order over catalog entries, given the history mapping `h`
/// and the reference time `now`: entries with a history record come first;
/// among them the score comparison decides (higher score first), a score
/// tie is broken by recency (smaller `dt` first), then by the lexicographic
/// order of display titles, and last by canonical path, so the order pins
/// the displayed sequence for every input.
pub open spec fn prog_le(h: Map<Seq<char>, HistoryEntry>, now: u64, a: ProgramV, b: ProgramV) -> bool {
    let ha = h.contains_key(a.abs_path);
    let hb = h.contains_key(b.abs_path);
    if ha && !hb {
        true
    } else if !ha && hb {
        false
    } else if ha && hb {
        let da = dt_of(now, h[a.abs_path].access);
        let db = dt_of(now, h[b.abs_path].access);
        let ca = h[a.abs_path].rank as int * den_spec(db) as int;
        let cb = h[b.abs_path].rank as int * den_spec(da) as int;
        if ca > cb {
            true
        } else if ca < cb {
            false
        } else if da < db {
            true
        } else if da > db {
            false
        } else {
            lex2_le(a.title, a.abs_path, b.title, b.abs_path)
        }
    } else {
        lex2_le(a.title, a.abs_path, b.title, b.abs_path)
    }
}

proof fn lemma_ratio_trans_ge(ra: int, da: int, rb: int, db: int, rc: int, dc: int)
    by (nonlinear_arith)
    requires
        da > 0,
        db > 0,
        dc > 0,
        ra * db >= rb * da,
        rb * dc >= rc * db,
    ensures
        ra * dc >= rc * da,
{
}

proof fn lemma_ratio_trans_gt(ra: int, da: int, rb: int, db: int, rc: int, dc: int)
    by (nonlinear_arith)
    requires
        da > 0,
        db > 0,
        dc > 0,
        ra * db >= rb * da,
        rb * dc >= rc * db,
        ra * db > rb * da || rb * dc > rc * db,
    ensures
        ra * dc > rc * da,
{
}

/// The display order relates every pair of entries: with the title
/// tie-break it is total, so the sorted output is deterministic.
pub proof fn lemma_prog_le_total(h: Map<Seq<char>, HistoryEntry>, now: u64, a: ProgramV, b: ProgramV)
    ensures
        prog_le(h, now, a, b) || prog_le(h, now, b, a),
{
    lemma_lex2_le_total(a.title, a.abs_path, b.title, b.abs_path);
}

/// The display order is transitive.
pub proof fn lemma_prog_le_trans(
    h: Map<Seq<char>, HistoryEntry>,
    now: u64,
    a: ProgramV,
    b: ProgramV,
    c: ProgramV,
)
    requires
        prog_le(h, now, a, b),
        prog_le(h, now, b, c),
    ensures
        prog_le(h, now, a, c),
{
    let ha = h.contains_key(a.abs_path);
    let hb = h.contains_key(b.abs_path);
    let hc = h.contains_key(c.abs_path);
    if ha && hb && hc {
        let ra = h[a.abs_path].rank as int;
        let rb = h[b.abs_path].rank as int;
        let rc = h[c.abs_path].rank as int;
        let ta = dt_of(now, h[a.abs_path].access);
        let tb = dt_of(now, h[b.abs_path].access);
        let tc = dt_of(now, h[c.abs_path].access);
        let ea = den_spec(ta) as int;
        let eb = den_spec(tb) as int;
        let ec = den_spec(tc) as int;
        if ra * eb == rb * ea && rb * ec == rc * eb {
            lemma_ratio_trans_ge(ra, ea, rb, eb, rc, ec);
            lemma_ratio_trans_ge(rc, ec, rb, eb, ra, ea);
            if ta == tb && tb == tc {
                lemma_lex2_le_trans(a.title, a.abs_path, b.title, b.abs_path, c.title, c.abs_path);
            }
        } else {
            lemma_ratio_trans_gt(ra, ea, rb, eb, rc, ec);
        }
    } else if !ha && !hb && !hc {
        lemma_lex2_le_trans(a.title, a.abs_path, b.title, b.abs_path, c.title, c.abs_path);
    }
}

/// The score strictly increases with rank: of two entries launched equally
/// long ago, the one launched more often sorts strictly first.
pub proof fn lemma_higher_rank_outranks(
    h: Map<Seq<char>, HistoryEntry>,
    now: u64,
    a: ProgramV,
    b: ProgramV,
)
    requires
        h.contains_key(a.abs_path),
        h.contains_key(b.abs_path),
        h[a.abs_path].access == h[b.abs_path].access,
        h[a.abs_path].rank > h[b.abs_path].rank,
    ensures
        prog_le(h, now, a, b),
        !prog_le(h, now, b, a),
{
    let ra = h[a.abs_path].rank as int;
    let rb = h[b.abs_path].rank as int;
    let e = den_spec(dt_of(now, h[a.abs_path].access)) as int;
    assert(e > 0);
    assert(ra * e > rb * e) by (nonlinear_arith)
        requires
            ra > rb,
            e > 0,
    ;
}

/// The score strictly increases with recency: of two entries of the same
/// positive rank, the one launched more recently sorts strictly first.
pub proof fn lemma_more_recent_outranks(
    h: Map<Seq<char>, HistoryEntry>,
    now: u64,
    a: ProgramV,
    b: ProgramV,
)
    requires
        h.contains_key(a.abs_path),
        h.contains_key(b.abs_path),
        h[a.abs_path].rank == h[b.abs_path].rank,
        h[a.abs_path].rank > 0,
        h[a.abs_path].access <= now,
        h[b.abs_path].access <= now,
        h[a.abs_path].access > h[b.abs_path].access,
    ensures
        prog_le(h, now, a, b),
        !prog_le(h, now, b, a),
{
    let r = h[a.abs_path].rank as int;
    let ta = dt_of(now, h[a.abs_path].access);
    let tb = dt_of(now, h[b.abs_path].access);
    assert(ta < tb);
    lemma_den_spec_monotone(ta, tb);
    let ea = den_spec(ta) as int;
    let eb = den_spec(tb) as int;
    assert(r * eb >= r * ea) by (nonlinear_arith)
        requires
            r >= 0,
            ea <= eb,
    ;
}

/// A catalog entry paired with its precomputed score components.
pub struct Scored {
    pub prog: Program,
    /// Whether a history record exists for the entry's path.
    pub has: bool,
    /// The record's rank, 0 without a record.
    pub rank: u32,
    /// Seconds since the last launch, clamped at zero.
    pub dt: u64,
    /// The positive score denominator.
    pub den: u64,
}

/// Mathematical value of a `Scored`.
pub struct ScoredV {
    pub prog: ProgramV,
    pub has: bool,
    pub rank: u32,
    pub dt: u64,
    pub den: u64,
}

impl View for Scored {
    type V = ScoredV;

    open spec fn view(&self) -> ScoredV {
        ScoredV { prog: self.prog@, has: self.has, rank: self.rank, dt: self.dt, den: self.den }
    }
}

/// The display order over precomputed score components.
pub open spec fn s_le(a: ScoredV, b: ScoredV) -> bool {
    if a.has && !b.has {
        true
    } else if !a.has && b.has {
        false
    } else if a.has && b.has {
        let ca = a.rank as int * b.den as int;
        let cb = b.rank as int * a.den as int;
        if ca > cb {
            true
        } else if ca < cb {
            false
        } else if a.dt < b.dt {
            true
        } else if a.dt > b.dt {
            false
        } else {
            lex2_le(a.prog.title, a.prog.abs_path, b.prog.title, b.prog.abs_path)
        }
    } else {
        lex2_le(a.prog.title, a.prog.abs_path, b.prog.title, b.prog.abs_path)
    }
}

proof fn lemma_s_le_total(a: ScoredV, b: ScoredV)
    ensures
        s_le(a, b) || s_le(b, a),
{
    lemma_lex2_le_total(a.prog.title, a.prog.abs_path, b.prog.title, b.prog.abs_path);
}

proof fn lemma_s_le_trans(a: ScoredV, b: ScoredV, c: ScoredV)
    requires
        a.den > 0,
        b.den > 0,
        c.den > 0,
        s_le(a, b),
        s_le(b, c),
    ensures
        s_le(a, c),
{
    if a.has && b.has && c.has {
        let ra = a.rank as int;
        let rb = b.rank as int;
        let rc = c.rank as int;
        if ra * b.den == rb * a.den && rb * c.den == rc * b.den {
            lemma_ratio_trans_ge(ra, a.den as int, rb, b.den as int, rc, c.den as int);
            lemma_ratio_trans_ge(rc, c.den as int, rb, b.den as int, ra, a.den as int);
            if a.dt == b.dt && b.dt == c.dt {
                lemma_lex2_le_trans(
                    a.prog.title,
                    a.prog.abs_path,
                    b.prog.title,
                    b.prog.abs_path,
                    c.prog.title,
                    c.prog.abs_path,
                );
            }
        } else {
            lemma_ratio_trans_gt(ra, a.den as int, rb, b.den as int, rc, c.den as int);
        }
    } else if !a.has && !b.has && !c.has {
        lemma_lex2_le_trans(
            a.prog.title,
            a.prog.abs_path,
            b.prog.title,
            b.prog.abs_path,
            c.prog.title,
            c.prog.abs_path,
        );
    }
}

/// The score components of `s` are the ones the history `h` assigns to its
/// entry at time `now`.
pub open spec fn key_matches(h: Map<Seq<char>, HistoryEntry>, now: u64, s: ScoredV) -> bool {
    &&& s.has == h.contains_key(s.prog.abs_path)
    &&& (s.has ==> s.rank == h[s.prog.abs_path].rank && s.dt as nat == dt_of(
        now,
        h[s.prog.abs_path].access,
    ) && s.den as nat == den_spec(dt_of(now, h[s.prog.abs_path].access)))
    &&& s.den > 0
}

/// On matching score components, the component order is the entry order.
proof fn lemma_s_le_matches(h: Map<Seq<char>, HistoryEntry>, now: u64, a: ScoredV, b: ScoredV)
    requires
        key_matches(h, now, a),
        key_matches(h, now, b),
    ensures
        s_le(a, b) == prog_le(h, now, a.prog, b.prog),
{
}

fn cross(r: u32, d: u64) -> (x: u128)
    ensures
        x == r as int * d as int,
{
    proof {
        assert(r as int * d as int <= 0xFFFFFFFF * 0xFFFFFFFFFFFFFFFF) by (nonlinear_arith)
            requires
                0 <= r as int <= 0xFFFFFFFF,
                0 <= d as int <= 0xFFFFFFFFFFFFFFFF,
        ;
    }
    (r as u128) * (d as u128)
}

/// Executable comparison realising `s_le`.
fn s_le_exec(a: &Scored, b: &Scored) -> (r: bool)
    ensures
        r == s_le(a@, b@),
{
    if a.has && !b.has {
        true
    } else if !a.has && b.has {
        false
    } else if a.has && b.has {
        let ca = cross(a.rank, b.den);
        let cb = cross(b.rank, a.den);
        if ca > cb {
            true
        } else if ca < cb {
            false
        } else if a.dt < b.dt {
            true
        } else if a.dt > b.dt {
            false
        } else {
            lex2_le_exec(
                a.prog.title.as_str(),
                a.prog.abs_path.as_str(),
                b.prog.title.as_str(),
                b.prog.abs_path.as_str(),
            )
        }
    } else {
        lex2_le_exec(
            a.prog.title.as_str(),
            a.prog.abs_path.as_str(),
            b.prog.title.as_str(),
            b.prog.abs_path.as_str(),
        )
    }
}

/// The sequence of entry values carried by a sequence of scored entries.
pub open spec fn prog_views(s: Seq<Scored>) -> Seq<ProgramV> {
    s.map_values(|x: Scored| x.prog@)
}

/// The sequence of entry values of a catalog.
pub open spec fn catalog_views(s: Seq<Program>) -> Seq<ProgramV> {
    s.map_values(|p: Program| p@)
}

proof fn lemma_prog_views_remove(s: Seq<Scored>, i: int)
    requires
        0 <= i < s.len(),
    ensures
        prog_views(s.remove(i)) =~= prog_views(s).remove(i),
{
}

/// Sequences holding the same scored entries hold the same entry values.
proof fn lemma_prog_views_multiset(s1: Seq<Scored>, s2: Seq<Scored>)
    requires
        s1.to_multiset() == s2.to_multiset(),
    ensures
        prog_views(s1).to_multiset() == prog_views(s2).to_multiset(),
    decreases s1.len(),
{
    if s1.len() == 0 {
        assert(s2.to_multiset().len() == 0);
        assert(s2.len() == 0);
        assert(prog_views(s1) =~= Seq::<ProgramV>::empty());
        assert(prog_views(s2) =~= Seq::<ProgramV>::empty());
    } else {
        let x = s1[0];
        assert(s1.to_multiset().count(x) > 0) by {
            assert(s1.contains(x));
        }
        assert(s2.contains(x)) by {
            assert(s2.to_multiset().count(x) > 0);
        }
        let j = choose|j: int| 0 <= j < s2.len() && s2[j] == x;
        assert(s1.remove(0).to_multiset() == s1.to_multiset().remove(x));
        assert(s2.remove(j).to_multiset() == s2.to_multiset().remove(x));
        lemma_prog_views_multiset(s1.remove(0), s2.remove(j));
        lemma_prog_views_remove(s1, 0);
        lemma_prog_views_remove(s2, j);
        let v1 = prog_views(s1);
        let v2 = prog_views(s2);
        assert(v1.remove(0).to_multiset() == v1.to_multiset().remove(v1[0]));
        assert(v2.remove(j).to_multiset() == v2.to_multiset().remove(v2[j]));
        assert(v1[0] == x.prog@);
        assert(v2[j] == x.prog@);
        assert(v1.to_multiset().count(v1[0]) > 0) by {
            assert(v1.contains(v1[0]));
        }
        assert(v2.to_multiset().count(v2[j]) > 0) by {
            assert(v2.contains(v2[j]));
        }
        assert(v1.to_multiset() =~= v1.to_multiset().remove(v1[0]).insert(v1[0]));
        assert(v2.to_multiset() =~= v2.to_multiset().remove(v2[j]).insert(v2[j]));
    }
}

/// Sorts the scored entries by the display order, by insertion.
fn sort_scored(v: &mut Vec<Scored>)
    requires
        forall|i: int| 0 <= i < old(v)@.len() ==> (#[trigger] old(v)@[i]).den > 0,
    ensures
        final(v)@.len() == old(v)@.len(),
        final(v)@.to_multiset() == old(v)@.to_multiset(),
        forall|i: int, j: int| 0 <= i < j < final(v)@.len() ==> s_le(final(v)@[i]@, final(v)@[j]@),
        forall|i: int| 0 <= i < final(v)@.len() ==> (#[trigger] final(v)@[i]).den > 0,
{
    let ghost orig = v@;
    let mut n: usize = 1;
    while n < v.len()
        invariant
            v@.len() == orig.len(),
            v@.to_multiset() == orig.to_multiset(),
            n >= 1,
            forall|i: int| 0 <= i < v@.len() ==> (#[trigger] v@[i]).den > 0,
            forall|i: int, j: int| 0 <= i < j < n && j < v@.len() ==> s_le(v@[i]@, v@[j]@),
        decreases v@.len() - n,
    {
        let ghost before = v@;
        // Find the insertion position for element n within the sorted
        // prefix.
        let mut p: usize = 0;
        while p < n && s_le_exec(&v[p], &v[n])
            invariant
                v@ == before,
                n < v@.len(),
                p <= n,
                forall|q: int| 0 <= q < p ==> s_le(v@[q]@, v@[n as int]@),
            decreases n - p,
        {
            p = p + 1;
        }
        proof {
            // Everything from p up to n comes after element n in the order.
            if p < n {
                lemma_s_le_total(v@[p as int]@, v@[n as int]@);
                assert forall|q: int| p <= q < n implies s_le(v@[n as int]@, v@[q]@) by {
                    if q > p {
                        lemma_s_le_trans(v@[n as int]@, v@[p as int]@, v@[q]@);
                    }
                }
            }
        }
        let x = v.remove(n);
        v.insert(p, x);
        proof {
            let w = v@;
            assert(w == before.remove(n as int).insert(p as int, x));
            assert(w.to_multiset() == orig.to_multiset()) by {
                assert(before.remove(n as int).to_multiset() == before.to_multiset().remove(
                    before[n as int],
                ));
                assert(w.to_multiset() == before.remove(n as int).to_multiset().insert(x));
                assert(before.to_multiset().count(before[n as int]) > 0) by {
                    assert(before.contains(before[n as int]));
                }
                assert(w.to_multiset() =~= before.to_multiset());
            }
            assert forall|i: int| 0 <= i < w.len() implies (#[trigger] w[i]).den > 0 by {
                if i < p {
                    assert(w[i] == before[i]);
                } else if i == p {
                    assert(w[i] == before[n as int]);
                } else if i <= n {
                    assert(w[i] == before[i - 1]);
                } else {
                    assert(w[i] == before[i]);
                }
            }
            assert forall|i: int, j: int| 0 <= i < j < n + 1 && j < w.len() implies s_le(
                w[i]@,
                w[j]@,
            ) by {
                if j < p {
                    assert(w[i] == before[i] && w[j] == before[j]);
                } else if j == p {
                    assert(w[i] == before[i] && w[j] == before[n as int]);
                } else if i < p {
                    assert(w[i] == before[i]);
                    if j <= n {
                        assert(w[j] == before[j - 1]);
                    }
                } else if i == p {
                    assert(w[i] == before[n as int]);
                    if j <= n {
                        assert(w[j] == before[j - 1]);
                    }
                } else {
                    assert(w[i] == before[i - 1]);
                    if j <= n {
                        assert(w[j] == before[j - 1]);
                    }
                }
            }
        }
        n = n + 1;
    }
}

/// Clones one catalog entry.
fn clone_program(p: &Program) -> (r: Program)
    ensures
        r@ == p@,
{
    Program { title: p.title.clone(), source: p.source, abs_path: p.abs_path.clone() }
}

/// Pairs every entry with the score components its history record yields.
fn make_scored(progs: &Vec<Program>, hist: &History, now: u64) -> (r: Vec<Scored>)
    requires
        hist.wf(),
    ensures
        r@.len() == progs@.len(),
        forall|i: int|
            0 <= i < r@.len() ==> key_matches(hist@, now, (#[trigger] r@[i])@) && r@[i].prog@
                == progs@[i]@,
{
    let mut r: Vec<Scored> = Vec::new();
    let mut i: usize = 0;
    while i < progs.len()
        invariant
            hist.wf(),
            i <= progs@.len(),
            r@.len() == i,
            forall|k: int|
                0 <= k < i ==> key_matches(hist@, now, (#[trigger] r@[k])@) && r@[k].prog@
                    == progs@[k]@,
        decreases progs@.len() - i,
    {
        let p = &progs[i];
        let s = match hist.lookup(&p.abs_path) {
            Some(rec) => {
                let dt = dt_exec(now, rec.access);
                Scored {
                    prog: clone_program(p),
                    has: true,
                    rank: rec.rank,
                    dt,
                    den: den_from_dt(dt),
                }
            },
            None => Scored { prog: clone_program(p), has: false, rank: 0, dt: 0, den: 1 },
        };
        r.push(s);
        i = i + 1;
    }
    r
}

/// Orders the catalog for display: a permutation of `progs`, sorted by the
/// display order `prog_le` under the history `hist` at time `now`.
pub fn rank_programs(progs: &Vec<Program>, hist: &History, now: u64) -> (r: Vec<Program>)
    requires
        hist.wf(),
    ensures
        r@.len() == progs@.len(),
        catalog_views(r@).to_multiset() == catalog_views(progs@).to_multiset(),
        forall|i: int, j: int|
            0 <= i < j < r@.len() ==> prog_le(hist@, now, r@[i]@, r@[j]@),
{
    let mut scored = make_scored(progs, hist, now);
    let ghost scored0 = scored@;
    sort_scored(&mut scored);
    proof {
        lemma_prog_views_multiset(scored@, scored0);
        assert(prog_views(scored0) =~= catalog_views(progs@));
        assert forall|i: int| 0 <= i < scored@.len() implies key_matches(
            hist@,
            now,
            (#[trigger] scored@[i])@,
        ) by {
            assert(scored@.contains(scored@[i]));
            assert(scored@.to_multiset().count(scored@[i]) > 0);
            assert(scored0.contains(scored@[i])) by {
                assert(scored0.to_multiset().count(scored@[i]) > 0);
            }
            let m = choose|m: int| 0 <= m < scored0.len() && scored0[m] == scored@[i];
            assert(key_matches(hist@, now, scored0[m]@));
        }
        assert forall|i: int, j: int|
            0 <= i < j < scored@.len() implies prog_le(
            hist@,
            now,
            scored@[i].prog@,
            scored@[j].prog@,
        ) by {
            lemma_s_le_matches(hist@, now, scored@[i]@, scored@[j]@);
        }
    }
    let mut r: Vec<Program> = Vec::new();
    let mut i: usize = 0;
    while i < scored.len()
        invariant
            i <= scored@.len(),
            r@.len() == i,
            forall|k: int| 0 <= k < i ==> (#[trigger] r@[k])@ == scored@[k].prog@,
        decreases scored@.len() - i,
    {
        r.push(clone_program(&scored[i].prog));
        i = i + 1;
    }
    proof {
        assert(catalog_views(r@) =~= prog_views(scored@));
    }
    r
}

} // verus!
