//! Erase planning.
//!
//! Flash is erased a sector at a time, so before an image can be written
//! the sectors its payload bytes fall into must be erased — and no
//! others.  [`Uf2File::sectors_to_erase`] computes the ascending,
//! maximally merged list of sector-aligned regions whose union is
//! exactly the set of touched sectors.

use vstd::prelude::*;
use vstd::arithmetic::div_mod::*;
use vstd::arithmetic::mul::*;
use crate::image::Uf2File;
use crate::boot::FLASH_PAGE_SIZE;
use crate::boot::FLASH_SECTOR_SIZE;

verus! {

/// The start of the sector holding byte address `p`.
pub open spec fn spec_sector_of(ss: int, p: int) -> int {
    (p / ss) * ss
}

/// The sector holding byte `k` of entry `i`.
pub open spec fn spec_byte_sector(entries: Seq<(u32, Seq<u8>)>, ss: int, i: int, k: int) -> int {
    spec_sector_of(ss, entries[i].0 + k)
}

/// Sector start `s` holds at least one payload byte of the first `n`
/// entries.
pub open spec fn spec_touched_upto(entries: Seq<(u32, Seq<u8>)>, ss: int, n: int, s: int) -> bool {
    exists|i: int, k: int|
        0 <= i < n && 0 <= k < entries[i].1.len() && spec_byte_sector(entries, ss, i, k) == s
}

/// Sector start `s` holds at least one payload byte of the image.
pub open spec fn spec_sector_touched(entries: Seq<(u32, Seq<u8>)>, ss: int, s: int) -> bool {
    spec_touched_upto(entries, ss, entries.len() as int, s)
}

/// Address `s` lies inside one of the regions.
pub open spec fn spec_in_regions(regions: Seq<(u32, u32)>, s: int) -> bool {
    exists|j: int|
        0 <= j < regions.len() && (#[trigger] regions[j]).0 <= s < regions[j].0 + regions[j].1
}

/// One step of the merge invariant: `x` is covered by the finished
/// regions together with the running region exactly when it falls in
/// one of the first `n` sector windows.
pub open spec fn spec_covered(
    regions: Seq<(u32, u32)>,
    cur_start: u32,
    cur_size: u32,
    v: Seq<u32>,
    ss: u32,
    n: int,
    x: int,
) -> bool {
    (spec_in_regions(regions, x) || (cur_start <= x < cur_start + cur_size)) <==> (exists|t: int|
        0 <= t < n && (#[trigger] v[t]) <= x < v[t] + ss)
}

/// Strictly ascending sequence of sector starts.
pub open spec fn spec_sorted_unique(v: Seq<u32>) -> bool {
    forall|i: int, j: int| 0 <= i < j < v.len() ==> v[i] < v[j]
}

/// A sector start is aligned, at or below its byte, and within one
/// sector of it.
proof fn lemma_sector_basics(ss: int, p: int)
    requires
        ss >= 1,
        p >= 0,
    ensures
        spec_sector_of(ss, p) % ss == 0,
        spec_sector_of(ss, p) <= p < spec_sector_of(ss, p) + ss,
        spec_sector_of(ss, p) >= 0,
{
    lemma_fundamental_div_mod(p, ss);
    lemma_mod_bound(p, ss);
    lemma_mod_multiples_basic(p / ss, ss);
    lemma_div_pos_is_pos(p, ss);
    lemma_mul_is_commutative(p / ss, ss);
    lemma_mul_nonnegative(p / ss, ss);
}

/// Sector starts are monotone in the byte address.
proof fn lemma_sector_monotone(ss: int, p: int, q: int)
    requires
        ss >= 1,
        0 <= p <= q,
    ensures
        spec_sector_of(ss, p) <= spec_sector_of(ss, q),
{
    lemma_div_is_ordered(p, q, ss);
    lemma_mul_inequality(p / ss, q / ss, ss);
}

/// An aligned address is its own sector start.
proof fn lemma_aligned_sector_of(ss: int, s: int)
    requires
        ss >= 1,
        s >= 0,
        s % ss == 0,
    ensures
        spec_sector_of(ss, s) == s,
{
    lemma_fundamental_div_mod(s, ss);
    lemma_mul_is_commutative(s / ss, ss);
}

/// An aligned address at or below `a` is at or below `a`'s sector start.
proof fn lemma_aligned_le(ss: int, s: int, a: int)
    requires
        ss >= 1,
        0 <= s <= a,
        s % ss == 0,
    ensures
        s <= spec_sector_of(ss, a),
{
    lemma_div_is_ordered(s, a, ss);
    lemma_mul_inequality(s / ss, a / ss, ss);
    lemma_aligned_sector_of(ss, s);
}

/// Two distinct aligned addresses are at least a sector apart.
proof fn lemma_aligned_distinct(ss: int, s1: int, s2: int)
    requires
        ss >= 1,
        s1 >= 0,
        s2 >= 0,
        s1 % ss == 0,
        s2 % ss == 0,
        s1 < s2,
    ensures
        s1 + ss <= s2,
{
    lemma_fundamental_div_mod(s1, ss);
    lemma_fundamental_div_mod(s2, ss);
    let q1 = s1 / ss;
    let q2 = s2 / ss;
    lemma_mul_is_commutative(q1, ss);
    lemma_mul_is_commutative(q2, ss);
    if q2 <= q1 {
        lemma_mul_inequality(q2, q1, ss);
        assert(false);
    }
    lemma_mul_inequality(q1 + 1, q2, ss);
    assert((q1 + 1) * ss == q1 * ss + ss) by (nonlinear_arith);
}

/// The sectors touched by one entry's payload are exactly the aligned
/// addresses between the sector of its first byte and the sector of its
/// last byte.
proof fn lemma_touched_window(entries: Seq<(u32, Seq<u8>)>, ss: int, i: int, s: int)
    requires
        ss >= 1,
        0 <= i < entries.len(),
        entries[i].1.len() >= 1,
        s >= 0,
        s % ss == 0,
    ensures
        (exists|k: int|
            0 <= k < entries[i].1.len() && spec_byte_sector(entries, ss, i, k) == s) <==> (
        spec_sector_of(ss, entries[i].0 as int) <= s <= spec_sector_of(
            ss,
            entries[i].0 + entries[i].1.len() - 1,
        )),
{
    let a = entries[i].0 as int;
    let len = entries[i].1.len() as int;
    if exists|k: int| 0 <= k < entries[i].1.len() && spec_byte_sector(entries, ss, i, k) == s {
        let k = choose|k: int|
            0 <= k < entries[i].1.len() && spec_byte_sector(entries, ss, i, k) == s;
        lemma_sector_monotone(ss, a, a + k);
        lemma_sector_monotone(ss, a + k, a + len - 1);
    }
    if spec_sector_of(ss, a) <= s <= spec_sector_of(ss, a + len - 1) {
        if s <= a {
            lemma_aligned_le(ss, s, a);
            lemma_sector_basics(ss, a);
            assert(spec_byte_sector(entries, ss, i, 0) == s);
        } else {
            let k = s - a;
            lemma_sector_basics(ss, a + len - 1);
            assert(k < len);
            lemma_aligned_sector_of(ss, s);
            assert(spec_byte_sector(entries, ss, i, k) == s);
        }
    }
}

/// Insert a sector start into an ascending list, keeping it ascending;
/// a start already present is left alone.
#[verifier::spinoff_prover]
#[verifier::rlimit(50)]
fn insert_sorted(v: &mut Vec<u32>, x: u32)
    requires
        spec_sorted_unique(old(v)@),
    ensures
        spec_sorted_unique(final(v)@),
        forall|y: u32| final(v)@.contains(y) <==> (old(v)@.contains(y) || y == x),
{
    let ghost ov = old(v)@;
    let mut idx: usize = 0;
    while idx < v.len() && v[idx] < x
        invariant
            0 <= idx <= v@.len(),
            v@ == old(v)@,
            forall|j: int| 0 <= j < idx ==> v@[j] < x,
        decreases v@.len() - idx,
    {
        idx = idx + 1;
    }
    let ghost i = idx as int;
    if idx < v.len() && v[idx] == x {
        proof {
            assert(ov.contains(x));
            assert forall|y: u32| v@.contains(y) <==> (ov.contains(y) || y == x) by {}
        }
    } else {
        v.insert(idx, x);
        proof {
            assert(v@ =~= ov.insert(i, x));
            ov.insert_ensures(i, x);
            assert(i == ov.len() || ov[i] > x);
            assert forall|j: int, k: int| 0 <= j < k < v@.len() implies v@[j] < v@[k] by {
                if k < i {
                    assert(v@[j] == ov[j] && v@[k] == ov[k]);
                } else if j < i && k == i {
                    assert(v@[j] == ov[j]);
                } else if j < i && k > i {
                    assert(v@[j] == ov[j] && v@[k] == ov[k - 1]);
                    if j < k - 1 {
                        assert(ov[j] < ov[k - 1]);
                    }
                } else if j == i {
                    assert(v@[k] == ov[k - 1]);
                    if i < k - 1 {
                        assert(ov[i] < ov[k - 1]);
                    }
                } else {
                    assert(v@[j] == ov[j - 1] && v@[k] == ov[k - 1]);
                }
            }
            assert(v@[i] == x);
            assert forall|y: u32| v@.contains(y) implies (ov.contains(y) || y == x) by {
                let j = choose|j: int| 0 <= j < v@.len() && v@[j] == y;
                if j < i {
                    assert(ov[j] == y);
                } else if j > i {
                    assert(v@[j] == ov[j - 1]);
                }
            }
            assert forall|y: u32| (ov.contains(y) || y == x) implies v@.contains(y) by {
                if ov.contains(y) {
                    let j = choose|j: int| 0 <= j < ov.len() && ov[j] == y;
                    if j < i {
                        assert(v@[j] == y);
                    } else {
                        assert(v@[j + 1] == ov[j]);
                    }
                }
            }
        }
    }
}


impl Uf2File {
    /// The minimal erase plan: the ascending, maximally merged list of
    /// sector-aligned regions whose union is exactly the set of sectors
    /// the image's payload bytes fall into.
    #[verifier::spinoff_prover]
    #[verifier::rlimit(100)]
    pub fn sectors_to_erase(&self, sector_size: u32) -> (r: Vec<(u32, u32)>)
        requires
            sector_size >= 1,
            forall|i: int|
                0 <= i < self.entries().len() ==> (#[trigger] self.entries()[i]).0
                    + self.entries()[i].1.len() + sector_size <= 0x1_0000_0000,
        ensures
            forall|j: int|
                0 <= j < r@.len() ==> (#[trigger] r@[j]).0 % sector_size == 0 && r@[j].1
                    % sector_size == 0 && r@[j].1 >= sector_size && r@[j].0 + r@[j].1
                    <= u32::MAX,
            forall|j: int| 0 <= j < r@.len() - 1 ==> (#[trigger] r@[j]).0 + r@[j].1 < r@[j + 1].0,
            forall|s: int|
                s % (sector_size as int) == 0 ==> (#[trigger] spec_in_regions(r@, s)
                    <==> spec_sector_touched(self.entries(), sector_size as int, s)),
    {
        let ss = sector_size;
        let ghost entries = self.entries();
        let ghost ssi = ss as int;

        let mut v: Vec<u32> = Vec::new();
        let mut i: usize = 0;
        while i < self.blocks.len()
            invariant
                ss == sector_size,
                ss >= 1,
                entries == self.entries(),
                ssi == ss as int,
                forall|t: int|
                    0 <= t < entries.len() ==> (#[trigger] entries[t]).0 + entries[t].1.len() + ss
                        <= 0x1_0000_0000,
                0 <= i <= entries.len(),
                spec_sorted_unique(v@),
                forall|y: u32|
                    v@.contains(y) <==> spec_touched_upto(entries, ssi, i as int, y as int),
                forall|t: int|
                    0 <= t < v@.len() ==> (#[trigger] v@[t]) % ss == 0 && v@[t] + ss <= u32::MAX,
            decreases entries.len() - i,
        {
            let a = self.blocks[i].0;
            let dlen = self.blocks[i].1.len();
            proof {
                assert(entries[i as int].0 == a && entries[i as int].1.len() == dlen);
            }
            if dlen > 0 {
                proof {
                    assert(entries[i as int].0 + entries[i as int].1.len() + ss <= 0x1_0000_0000);
                    lemma_sector_basics(ssi, a as int);
                    lemma_sector_basics(ssi, a as int + dlen - 1);
                    lemma_sector_monotone(ssi, a as int, a as int + dlen - 1);
                }
                let last_byte = a + (dlen - 1) as u32;
                let first = a / ss * ss;
                let last = last_byte / ss * ss;
                let mut s = first;
                while s <= last
                    invariant
                        ss >= 1,
                        ssi == ss as int,
                        entries == self.entries(),
                        0 <= i < entries.len(),
                        entries[i as int].0 == a,
                        entries[i as int].1.len() == dlen,
                        dlen >= 1,
                        last_byte == a + dlen - 1,
                        a + dlen + ss <= 0x1_0000_0000,
                        first == spec_sector_of(ssi, a as int),
                        last == spec_sector_of(ssi, last_byte as int),
                        first <= s,
                        s % ss == 0,
                        s <= last + ss,
                        last + ss <= u32::MAX,
                        spec_sorted_unique(v@),
                        forall|y: u32|
                            v@.contains(y) <==> (spec_touched_upto(entries, ssi, i as int, y as int)
                                || (first <= y < s && y % ss == 0)),
                        forall|t: int|
                            0 <= t < v@.len() ==> (#[trigger] v@[t]) % ss == 0 && v@[t] + ss
                                <= u32::MAX,
                    decreases last + ss - s,
                {
                    let s0 = s;
                    let ghost ov = v@;
                    insert_sorted(&mut v, s0);
                    s = s0 + ss;
                    proof {
                        lemma_mod_add_multiples_vanish(s0 as int, ssi);
                        assert(s % ss == 0);
                        assert forall|y: u32|
                            v@.contains(y) <==> (spec_touched_upto(
                                entries,
                                ssi,
                                i as int,
                                y as int,
                            ) || (first <= y < s && y % ss == 0)) by {
                            if v@.contains(y) {
                                if y != s0 {
                                    assert(ov.contains(y));
                                }
                            }
                            if first <= y < s && y % ss == 0 && y != s0 && !(first <= y < s0) {
                                lemma_aligned_distinct(ssi, s0 as int, y as int);
                                assert(false);
                            }
                        }
                        assert forall|t: int|
                            0 <= t < v@.len() implies (#[trigger] v@[t]) % ss == 0 && v@[t] + ss
                            <= u32::MAX by {
                            assert(v@.contains(v@[t]));
                            if v@[t] != s0 {
                                assert(ov.contains(v@[t]));
                                let t2 = choose|t2: int| 0 <= t2 < ov.len() && ov[t2] == v@[t];
                                assert(ov[t2] % ss == 0);
                            }
                        }
                    }
                }
                proof {
                    assert((ssi + last as int) % ssi == last as int % ssi) by {
                        lemma_mod_add_multiples_vanish(last as int, ssi);
                    }
                    assert(last % ss == 0);
                    assert(s > last);
                    lemma_aligned_distinct(ssi, last as int, s as int);
                    assert(s == last + ss);
                    assert forall|y: u32|
                        v@.contains(y) <==> spec_touched_upto(
                            entries,
                            ssi,
                            i as int + 1,
                            y as int,
                        ) by {
                        if v@.contains(y) {
                            let t = choose|t: int| 0 <= t < v@.len() && v@[t] == y;
                            assert(v@[t] % ss == 0);
                            assert(y % ss == 0);
                            lemma_touched_window(entries, ssi, i as int, y as int);
                            if spec_touched_upto(entries, ssi, i as int, y as int) {
                                let (t2, k): (int, int) = choose|t2: int, k: int|
                                    0 <= t2 < i as int && 0 <= k < entries[t2].1.len()
                                        && spec_byte_sector(entries, ssi, t2, k) == y as int;
                                assert(spec_byte_sector(entries, ssi, t2, k) == y as int);
                            } else {
                                assert(first <= y < s);
                                if y as int > last as int {
                                    lemma_aligned_distinct(ssi, last as int, y as int);
                                    assert(false);
                                }
                                assert(first <= y as int <= last);
                                let k = choose|k: int|
                                    0 <= k < entries[i as int].1.len() && spec_byte_sector(
                                        entries,
                                        ssi,
                                        i as int,
                                        k,
                                    ) == y as int;
                                assert(spec_byte_sector(entries, ssi, i as int, k) == y as int);
                            }
                        }
                        if spec_touched_upto(entries, ssi, i as int + 1, y as int) {
                            let (t, k): (int, int) = choose|t: int, k: int|
                                0 <= t < i as int + 1 && 0 <= k < entries[t].1.len()
                                    && spec_byte_sector(entries, ssi, t, k) == y as int;
                            if t < i as int {
                                assert(spec_touched_upto(entries, ssi, i as int, y as int));
                            } else {
                                lemma_sector_basics(ssi, entries[t].0 + k);
                                assert(y % ss == 0);
                                lemma_touched_window(entries, ssi, i as int, y as int);
                                assert(first <= y as int <= last);
                            }
                        }
                    }
                }
            } else {
                proof {
                    assert forall|y: u32|
                        v@.contains(y) <==> spec_touched_upto(
                            entries,
                            ssi,
                            i as int + 1,
                            y as int,
                        ) by {
                        if spec_touched_upto(entries, ssi, i as int + 1, y as int) {
                            let (t, k): (int, int) = choose|t: int, k: int|
                                0 <= t < i as int + 1 && 0 <= k < entries[t].1.len()
                                    && spec_byte_sector(entries, ssi, t, k) == y as int;
                            assert(t < i as int);
                            assert(spec_touched_upto(entries, ssi, i as int, y as int));
                        }
                        if spec_touched_upto(entries, ssi, i as int, y as int) {
                            let (t, k): (int, int) = choose|t: int, k: int|
                                0 <= t < i as int && 0 <= k < entries[t].1.len()
                                    && spec_byte_sector(entries, ssi, t, k) == y as int;
                            assert(spec_byte_sector(entries, ssi, t, k) == y as int);
                        }
                    }
                }
            }
            i = i + 1;
        }

        let mut regions: Vec<(u32, u32)> = Vec::new();
        if v.len() == 0 {
            proof {
                assert forall|s: int|
                    s % ssi == 0 implies (spec_in_regions(regions@, s) <==> spec_sector_touched(
                        entries,
                        ssi,
                        s,
                    )) by {
                    if spec_sector_touched(entries, ssi, s) {
                        let (t, k): (int, int) = choose|t: int, k: int|
                            0 <= t < entries.len() && 0 <= k < entries[t].1.len()
                                && spec_byte_sector(entries, ssi, t, k) == s;
                        lemma_sector_basics(ssi, entries[t].0 + k);
                        assert(v@.contains((s as u32)));
                        assert(false);
                    }
                }
            }
            return regions;
        }
        let mut cur_start = v[0];
        let mut cur_size = ss;
        let mut j: usize = 1;
        proof {
            assert forall|x: int|
                spec_covered(regions@, cur_start, cur_size, v@, ss, 1, x) by {
                if cur_start <= x < cur_start + cur_size {
                    assert(v@[0] <= x < v@[0] + ss);
                }
            }
        }
        while j < v.len()
            invariant
                ss >= 1,
                ssi == ss as int,
                1 <= j <= v@.len(),
                spec_sorted_unique(v@),
                forall|t: int|
                    0 <= t < v@.len() ==> (#[trigger] v@[t]) % ss == 0 && v@[t] + ss <= u32::MAX,
                cur_start % ss == 0,
                cur_size % ss == 0,
                cur_size >= ss,
                cur_start + cur_size == v@[j - 1] + ss,
                forall|t: int|
                    0 <= t < regions@.len() ==> (#[trigger] regions@[t]).0 % ss == 0
                        && regions@[t].1 % ss == 0 && regions@[t].1 >= ss && regions@[t].0
                        + regions@[t].1 <= u32::MAX,
                forall|t: int|
                    0 <= t < regions@.len() - 1 ==> (#[trigger] regions@[t]).0 + regions@[t].1
                        < regions@[t + 1].0,
                regions@.len() > 0 ==> regions@.last().0 + regions@.last().1 < cur_start,
                forall|x: int| spec_covered(regions@, cur_start, cur_size, v@, ss, j as int, x),
            decreases v@.len() - j,
        {
            let s = v[j];
            let ghost old_start = cur_start;
            let ghost old_size = cur_size;
            let ghost old_regions = regions@;
            proof {
                assert(v@[j as int - 1] < s);
                lemma_aligned_distinct(ssi, v@[j as int - 1] as int, s as int);
                assert(s >= old_start + old_size);
            }
            if s == cur_start + cur_size {
                cur_size = cur_size + ss;
                proof {
                    lemma_mod_add_multiples_vanish(old_size as int, ssi);
                    assert(cur_size % ss == 0);
                    let jn = j as int + 1;
                    assert forall|x: int|
                        spec_covered(regions@, cur_start, cur_size, v@, ss, jn, x) by {
                        assert(spec_covered(regions@, old_start, old_size, v@, ss, j as int, x));
                        if spec_in_regions(regions@, x) || (cur_start <= x < cur_start
                            + cur_size) {
                            if !(spec_in_regions(regions@, x) || (old_start <= x < old_start
                                + old_size)) {
                                assert(s <= x < s + ss);
                                assert(v@[j as int] <= x < v@[j as int] + ss);
                            }
                        }
                        if exists|t: int| 0 <= t < j + 1 && (#[trigger] v@[t]) <= x < v@[t] + ss {
                            let t = choose|t: int|
                                0 <= t < j + 1 && (#[trigger] v@[t]) <= x < v@[t] + ss;
                            if t < j {
                                assert(exists|t2: int|
                                    0 <= t2 < j && (#[trigger] v@[t2]) <= x < v@[t2] + ss);
                            } else {
                                assert(v@[j as int] == s);
                            }
                        }
                    }
                }
            } else {
                regions.push((cur_start, cur_size));
                cur_start = s;
                cur_size = ss;
                proof {
                    let rs = regions@;
                    assert(rs.drop_last() =~= old_regions);
                    assert(rs.last() == (old_start, old_size));
                    assert(old_start + old_size < s);
                    assert forall|t: int|
                        0 <= t < rs.len() - 1 implies (#[trigger] rs[t]).0 + rs[t].1 < rs[t
                        + 1].0 by {
                        if t < rs.len() - 2 {
                            assert(old_regions[t] == rs[t] && old_regions[t + 1] == rs[t + 1]);
                        } else {
                            assert(rs[t] == old_regions[t]);
                            assert(old_regions.len() > 0 && old_regions.last() == rs[t]);
                        }
                    }
                    let jn = j as int + 1;
                    assert forall|x: int|
                        spec_covered(rs, cur_start, cur_size, v@, ss, jn, x) by {
                        assert(spec_covered(old_regions, old_start, old_size, v@, ss, j as int, x));
                        if spec_in_regions(rs, x) {
                            let t2 = choose|t2: int|
                                0 <= t2 < rs.len() && (#[trigger] rs[t2]).0 <= x < rs[t2].0
                                    + rs[t2].1;
                            if t2 < rs.len() - 1 {
                                assert(old_regions[t2] == rs[t2]);
                                assert(spec_in_regions(old_regions, x));
                            } else {
                                assert(old_start <= x < old_start + old_size);
                            }
                            assert(exists|t: int|
                                0 <= t < j && (#[trigger] v@[t]) <= x < v@[t] + ss);
                        }
                        if cur_start <= x < cur_start + cur_size {
                            assert(v@[j as int] <= x < v@[j as int] + ss);
                        }
                        if exists|t: int| 0 <= t < j + 1 && (#[trigger] v@[t]) <= x < v@[t] + ss {
                            let t = choose|t: int|
                                0 <= t < j + 1 && (#[trigger] v@[t]) <= x < v@[t] + ss;
                            if t < j {
                                assert(exists|t5: int|
                                    0 <= t5 < j && (#[trigger] v@[t5]) <= x < v@[t5] + ss);
                                assert(spec_in_regions(old_regions, x) || (old_start <= x
                                    < old_start + old_size));
                                if spec_in_regions(old_regions, x) {
                                    let t3 = choose|t3: int|
                                        0 <= t3 < old_regions.len() && (#[trigger] old_regions[t3]).0
                                            <= x < old_regions[t3].0 + old_regions[t3].1;
                                    assert(rs[t3] == old_regions[t3]);
                                    assert(spec_in_regions(rs, x));
                                } else {
                                    assert(rs[rs.len() - 1].0 <= x < rs[rs.len() - 1].0 + rs[rs.len()
                                        - 1].1);
                                    assert(spec_in_regions(rs, x));
                                }
                            } else {
                                assert(v@[j as int] == cur_start);
                            }
                        }
                    }
                }
            }
            j = j + 1;
        }
        let ghost exit_regions = regions@;
        let ghost exit_start = cur_start;
        let ghost exit_size = cur_size;
        regions.push((cur_start, cur_size));
        proof {
            let rs = regions@;
            assert(rs.drop_last() =~= exit_regions);
            assert(rs.last() == (exit_start, exit_size));
            assert forall|t: int|
                0 <= t < rs.len() - 1 implies (#[trigger] rs[t]).0 + rs[t].1 < rs[t + 1].0 by {
                if t < rs.len() - 2 {
                    assert(exit_regions[t] == rs[t] && exit_regions[t + 1] == rs[t + 1]);
                } else {
                    assert(rs[t] == exit_regions[t]);
                    assert(exit_regions.len() > 0 && exit_regions.last() == rs[t]);
                }
            }
            assert forall|s: int|
                s % ssi == 0 implies (spec_in_regions(rs, s) <==> spec_sector_touched(
                    entries,
                    ssi,
                    s,
                )) by {
                if spec_in_regions(rs, s) {
                    let t2 = choose|t2: int|
                        0 <= t2 < rs.len() && (#[trigger] rs[t2]).0 <= s < rs[t2].0 + rs[t2].1;
                    if t2 < rs.len() - 1 {
                        assert(exit_regions[t2] == rs[t2]);
                        assert(spec_in_regions(exit_regions, s));
                    } else {
                        assert(exit_start <= s < exit_start + exit_size);
                    }
                    assert(spec_covered(exit_regions, exit_start, exit_size, v@, ss, v@.len() as int, s));
                    assert(spec_in_regions(exit_regions, s) || (exit_start <= s < exit_start
                        + exit_size));
                    assert(exists|t: int| 0 <= t < v@.len() && (#[trigger] v@[t]) <= s < v@[t] + ss);
                    let t = choose|t: int|
                        0 <= t < v@.len() && (#[trigger] v@[t]) <= s < v@[t] + ss;
                    if (v@[t] as int) < s {
                        lemma_aligned_distinct(ssi, v@[t] as int, s);
                        assert(false);
                    }
                    assert(v@.contains(v@[t]));
                    assert(spec_touched_upto(entries, ssi, entries.len() as int, v@[t] as int));
                }
                if spec_sector_touched(entries, ssi, s) {
                    let (t, k): (int, int) = choose|t: int, k: int|
                        0 <= t < entries.len() && 0 <= k < entries[t].1.len() && spec_byte_sector(
                            entries,
                            ssi,
                            t,
                            k,
                        ) == s;
                    lemma_sector_basics(ssi, entries[t].0 + k);
                    assert(0 <= s <= u32::MAX);
                    assert(spec_touched_upto(entries, ssi, entries.len() as int, s));
                    assert(v@.contains((s as u32)));
                    let t4 = choose|t4: int| 0 <= t4 < v@.len() && v@[t4] == (s as u32);
                    assert(v@[t4] <= s < v@[t4] + ss);
                    assert(exists|t5: int|
                        0 <= t5 < v@.len() && (#[trigger] v@[t5]) <= s < v@[t5] + ss);
                    assert(spec_covered(exit_regions, exit_start, exit_size, v@, ss, v@.len() as int, s));
                    assert(spec_in_regions(exit_regions, s) || (exit_start <= s < exit_start
                        + exit_size));
                    if spec_in_regions(exit_regions, s) {
                        let t6 = choose|t6: int|
                            0 <= t6 < exit_regions.len() && (#[trigger] exit_regions[t6]).0 <= s
                                < exit_regions[t6].0 + exit_regions[t6].1;
                        assert(rs[t6] == exit_regions[t6]);
                        assert(spec_in_regions(rs, s));
                    } else {
                        assert(rs[rs.len() - 1].0 <= s < rs[rs.len() - 1].0 + rs[rs.len() - 1].1);
                        assert(spec_in_regions(rs, s));
                    }
                }
            }
        }
        regions
    }
}

/// Erase covers write: with page-aligned entries, every byte of every
/// page the write plan will write falls inside a region of an erase
/// plan whose union is the touched sectors.  Page `k` of entry `i`
/// exists whenever its start offset lies inside the payload.
pub proof fn lemma_erase_covers_writes(
    entries: Seq<(u32, Seq<u8>)>,
    regions: Seq<(u32, u32)>,
    i: int,
    k: int,
)
    requires
        0 <= i < entries.len(),
        entries[i].0 % FLASH_PAGE_SIZE == 0,
        0 <= k,
        k * FLASH_PAGE_SIZE < entries[i].1.len(),
        entries[i].0 + entries[i].1.len() + FLASH_SECTOR_SIZE <= 0x1_0000_0000,
        forall|t: int|
            0 <= t < regions.len() ==> (#[trigger] regions[t]).0 % FLASH_SECTOR_SIZE == 0
                && regions[t].1 % FLASH_SECTOR_SIZE == 0,
        forall|s: int|
            s % (FLASH_SECTOR_SIZE as int) == 0 ==> (#[trigger] spec_in_regions(regions, s)
                <==> spec_sector_touched(entries, FLASH_SECTOR_SIZE as int, s)),
    ensures
        forall|x: int|
            entries[i].0 + k * FLASH_PAGE_SIZE <= x < entries[i].0 + k * FLASH_PAGE_SIZE
                + FLASH_PAGE_SIZE ==> spec_in_regions(regions, x),
{
    let page = FLASH_PAGE_SIZE as int;
    let ss = FLASH_SECTOR_SIZE as int;
    let a = entries[i].0 + k * page;
    let s = spec_sector_of(ss, a);
    lemma_sector_basics(ss, a);
    // The page start is page-aligned, and so is the sector start.
    assert(a % page == 0) by {
        lemma_mod_multiples_vanish(k, entries[i].0 as int, page);
    }
    assert(s % page == 0) by {
        lemma_fundamental_div_mod(a, ss);
        assert(s == (16 * (a / ss)) * page) by (nonlinear_arith)
            requires
                s == (a / ss) * ss,
                ss == 16 * page,
        ;
        lemma_mod_multiples_basic(16 * (a / ss), page);
    }
    // The page's first byte is a payload byte, so its sector is touched
    // and therefore erased.
    assert(spec_byte_sector(entries, ss, i, k * page) == s);
    assert(spec_sector_touched(entries, ss, s));
    assert(spec_in_regions(regions, s));
    // The whole page fits inside that sector.
    assert(a + page <= s + ss) by {
        if a + page > s + ss {
            lemma_aligned_distinct(page, s + ss - page, a);
            assert((s + ss - page) % page == 0) by {
                lemma_fundamental_div_mod(a, ss);
                assert(s + ss - page == (16 * (a / ss) + 15) * page) by (nonlinear_arith)
                    requires
                        s == (a / ss) * ss,
                        ss == 16 * page,
                ;
                lemma_mod_multiples_basic(16 * (a / ss) + 15, page);
            }
            assert(a < s + ss);
            assert(false);
        }
    }
    // The region holding the sector start holds the sector whole.
    let t2 = choose|t2: int|
        0 <= t2 < regions.len() && (#[trigger] regions[t2]).0 <= s < regions[t2].0 + regions[t2].1;
    assert(s + ss <= regions[t2].0 + regions[t2].1) by {
        let r_end = regions[t2].0 as int + regions[t2].1 as int;
        if s + ss > r_end {
            assert(r_end % ss == 0) by {
                lemma_mod_adds(regions[t2].0 as int, regions[t2].1 as int, ss);
            }
            assert(r_end - ss < s);
            lemma_aligned_distinct(ss, r_end - ss, s);
            assert((r_end - ss) % ss == 0) by {
                lemma_mod_sub_multiples_vanish(r_end, ss);
            }
            assert(false);
        }
    }
    assert forall|x: int|
        entries[i].0 + k * FLASH_PAGE_SIZE <= x < entries[i].0 + k * FLASH_PAGE_SIZE
            + FLASH_PAGE_SIZE implies spec_in_regions(regions, x) by {
        assert(regions[t2].0 <= x < regions[t2].0 + regions[t2].1);
    }
}

} // verus!
