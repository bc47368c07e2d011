//! Inodes: typed files over the filesystem layout.
//!
//! An in-memory inode is the position of its on-disk record; every
//! operation takes the filesystem and goes through the block cache.
//! Reads and writes are specified byte-exactly against `file_bytes`,
//! the file's contents as a function of the logical disk.

use vstd::prelude::*;

use crate::efs::{
    blocks_for, file_bytes, ind_entry, ino_direct, ino_ind1, ino_ind2, ino_size, ino_type,
    nth_block, owned_block, owned_count, EasyFileSystem,
};
use crate::layout::{read_u32, u32_le, write_u32, MAX_FILE_SIZE};

verus! {

broadcast use crate::block_cache::BlockCacheManager::lemma_disk_view_len, crate::block_cache::BlockCacheManager::lemma_disk_view_block_len;

/// Decompose a byte position into its data-block index and the offset
/// within the block.
proof fn lemma_pos_decomp(n: int, x: int)
    by (nonlinear_arith)
    requires
        0 <= n,
        0 <= x < 512,
    ensures
        (n * 512 + x) / 512 == n,
        (n * 512 + x) % 512 == x,
{
}


/// Blocks of the bitmap region equal in two disks give equal bits and
/// equal free counts.
proof fn lemma_bitmap_region_same(
    bm: crate::bitmap::Bitmap,
    d1: Seq<Seq<u8>>,
    d2: Seq<Seq<u8>>,
    m: int,
    total: int,
)
    requires
        forall|x: int|
            bm.start_block_id <= x < bm.start_block_id + bm.blocks ==> (#[trigger] d2[x]) == d1[x],
        0 <= m <= bm.blocks * 4096,
    ensures
        forall|j: int|
            0 <= j < bm.blocks * 4096 ==> #[trigger] bm.spec_bit(d2, j) == bm.spec_bit(d1, j),
        bm.free_below(d2, m) == bm.free_below(d1, m),
{
    reveal(crate::bitmap::Bitmap::spec_bit);
    assert forall|j: int| 0 <= j < bm.blocks * 4096 implies #[trigger] bm.spec_bit(d2, j)
        == bm.spec_bit(d1, j) by {
        assert(0 <= j / 4096 < bm.blocks) by (nonlinear_arith)
            requires
                0 <= j < bm.blocks * 4096,
        ;
        assert(d2[bm.start_block_id + j / 4096] == d1[bm.start_block_id + j / 4096]);
    };
    bm.lemma_free_below_same(d1, d2, m);
}

/// Arithmetic of the indirect-2 tier: the group and slot of data-block
/// index `n`, and the group counts of `n` and `n + 1`.
proof fn lemma_group_arith(n: int, g: int, k: int)
    by (nonlinear_arith)
    requires
        156 <= n < 156 + 128 * 128,
        g == (n - 156) / 128,
        k == (n - 156) % 128,
    ensures
        n - 156 == 128 * g + k,
        0 <= k < 128,
        0 <= g < 128,
        crate::efs::groups_for(n + 1) == g + 1,
        crate::efs::groups_for(n) == if k > 0 {
            g + 1
        } else {
            g
        },
{
}

/// The group of an earlier index is at most the current group, and an
/// earlier index in the same group sits at an earlier slot.
proof fn lemma_group_le(n: int, g: int, k: int, i: int)
    by (nonlinear_arith)
    requires
        156 <= n < 156 + 128 * 128,
        g == (n - 156) / 128,
        k == (n - 156) % 128,
        156 <= i < n,
    ensures
        0 <= (i - 156) / 128 <= g,
        0 <= (i - 156) % 128 < 128,
        (i - 156) / 128 == g ==> (i - 156) % 128 < k,
{
}


/// Pairwise distinctness of the owned blocks after an append in the
/// indirect-2 tier.  Each new position maps either to an old owned
/// position (one earlier for the bookkeeping blocks) or to one of the
/// freshly allocated blocks, whose bitmap bits were clear when they
/// were drawn while every older block's bit was already set.
#[verifier::rlimit(100)]
#[verifier::spinoff_prover]
proof fn lemma_high_distinct(
    db: crate::bitmap::Bitmap,
    ds: int,
    total: int,
    d0: Seq<Seq<u8>>,
    dM: Seq<Seq<u8>>,
    dG: Seq<Seq<u8>>,
    d2: Seq<Seq<u8>>,
    b: int,
    o: int,
    nn: int,
    gg: int,
    kk: int,
    ind2: int,
    grp: int,
    blk: int,
    t1: int,
    t2: int,
)
    requires
        forall|t: int|
            0 <= t < owned_count(nn) ==> ds <= #[trigger] owned_block(d0, b, o, nn, t) < total,
        forall|t: int|
            0 <= t < owned_count(nn) ==> db.spec_bit(
                d0,
                (#[trigger] owned_block(d0, b, o, nn, t)) - ds,
            ),
        forall|u1: int, u2: int|
            #![trigger owned_block(d0, b, o, nn, u1), owned_block(d0, b, o, nn, u2)]
            0 <= u1 < u2 < owned_count(nn) ==> owned_block(d0, b, o, nn, u1) != owned_block(
                d0,
                b,
                o,
                nn,
                u2,
            ),
        total - ds <= db.blocks * 4096,
        0 < ds <= total,
        156 <= nn,
        nn - 156 == 128 * gg + kk,
        0 <= kk < 128,
        0 <= gg,
        crate::efs::groups_for(nn) == if kk > 0 {
            gg + 1
        } else {
            gg
        },
        // classification of the new owned family
        forall|t: int|
            0 <= t < nn ==> #[trigger] owned_block(d2, b, o, nn + 1, t) == owned_block(
                d0,
                b,
                o,
                nn,
                t,
            ),
        owned_block(d2, b, o, nn + 1, nn) == blk,
        owned_block(d2, b, o, nn + 1, nn + 1) == owned_block(d0, b, o, nn, nn),
        owned_block(d2, b, o, nn + 1, nn + 2) == ind2,
        nn > 156 ==> ind2 == owned_block(d0, b, o, nn, nn + 1),
        nn == 156 ==> !db.spec_bit(d0, ind2 - ds),
        ds <= ind2 < total,
        forall|t: int|
            nn + 2 < t < nn + 3 + gg ==> #[trigger] owned_block(d2, b, o, nn + 1, t)
                == owned_block(d0, b, o, nn, t - 1),
        owned_block(d2, b, o, nn + 1, nn + 3 + gg) == grp,
        kk > 0 ==> grp == owned_block(d0, b, o, nn, nn + 2 + gg),
        kk == 0 ==> !db.spec_bit(dM, grp - ds),
        ds <= grp < total,
        // bit evolution along the allocation chain
        forall|j: int|
            0 <= j < db.blocks * 4096 && db.spec_bit(d0, j) ==> #[trigger] db.spec_bit(dM, j),
        forall|j: int|
            0 <= j < db.blocks * 4096 && db.spec_bit(dM, j) ==> #[trigger] db.spec_bit(dG, j),
        db.spec_bit(dM, ind2 - ds),
        db.spec_bit(dG, grp - ds),
        !db.spec_bit(dG, blk - ds),
        ds <= blk < total,
        0 <= t1 < t2 < nn + gg + 4,
    ensures
        owned_block(d2, b, o, nn + 1, t1) != owned_block(d2, b, o, nn + 1, t2),
{
    let oc = owned_count(nn);
    assert(oc == if nn > 156 {
        nn + 2 + crate::efs::groups_for(nn)
    } else {
        nn + 1
    });
    let v1 = owned_block(d2, b, o, nn + 1, t1);
    let v2 = owned_block(d2, b, o, nn + 1, t2);
    if t2 == nn {
        // an old data block against the fresh data block
        assert(v1 == owned_block(d0, b, o, nn, t1));
        assert(db.spec_bit(d0, v1 - ds));
        assert(0 <= v1 - ds < db.blocks * 4096);
        assert(db.spec_bit(dM, v1 - ds));
        assert(db.spec_bit(dG, v1 - ds));
        assert(v2 == blk && !db.spec_bit(dG, blk - ds));
    } else if t2 == nn + 2 && nn == 156 {
        // anything older against the fresh indirect-2 block
        assert(v2 == ind2 && !db.spec_bit(d0, ind2 - ds));
        if t1 < nn {
            assert(v1 == owned_block(d0, b, o, nn, t1));
            assert(db.spec_bit(d0, v1 - ds));
        } else if t1 == nn {
            assert(v1 == blk);
            assert(0 <= ind2 - ds < db.blocks * 4096);
            assert(db.spec_bit(dG, ind2 - ds));
            assert(!db.spec_bit(dG, blk - ds));
        } else {
            assert(t1 == nn + 1);
            assert(v1 == owned_block(d0, b, o, nn, nn));
            assert(db.spec_bit(d0, v1 - ds));
        }
    } else if t2 == nn + 3 + gg && kk == 0 {
        // anything older against the fresh group block
        assert(v2 == grp && !db.spec_bit(dM, grp - ds));
        if t1 == nn {
            assert(v1 == blk);
            assert(0 <= grp - ds < db.blocks * 4096);
            assert(db.spec_bit(dG, grp - ds));
            assert(!db.spec_bit(dG, blk - ds));
        } else if t1 == nn + 2 && nn == 156 {
            assert(v1 == ind2);
            assert(db.spec_bit(dM, ind2 - ds));
        } else {
            // v1 is an old owned block, set already in d0
            let o1 = if t1 < nn {
                t1
            } else {
                t1 - 1
            };
            assert(0 <= o1 < oc && v1 == owned_block(d0, b, o, nn, o1)) by {
                if t1 < nn {
                } else if t1 == nn + 1 {
                } else if t1 == nn + 2 {
                    assert(nn > 156);
                } else {
                    assert(nn + 2 < t1 < nn + 3 + gg);
                }
            };
            assert(db.spec_bit(d0, v1 - ds));
            assert(0 <= v1 - ds < db.blocks * 4096);
            assert(db.spec_bit(dM, v1 - ds));
        }
    } else {
        // t2 survives from the old enumeration
        assert(t2 != nn);
        let o2 = if t2 < nn {
            t2
        } else {
            t2 - 1
        };
        assert(0 <= o2 < oc && v2 == owned_block(d0, b, o, nn, o2)) by {
            if t2 < nn {
            } else if t2 == nn + 1 {
            } else if t2 == nn + 2 {
                assert(nn > 156);
            } else if t2 < nn + 3 + gg {
            } else {
                assert(t2 == nn + 3 + gg && kk > 0);
            }
        };
        assert(db.spec_bit(d0, v2 - ds));
        assert(0 <= v2 - ds < db.blocks * 4096);
        if t1 == nn {
            assert(v1 == blk);
            assert(db.spec_bit(dM, v2 - ds));
            assert(db.spec_bit(dG, v2 - ds));
            assert(!db.spec_bit(dG, blk - ds));
        } else if t1 == nn + 2 && nn == 156 {
            // impossible: with nn == 156 every t2 above nn + 2 is the
            // fresh group position handled before
            assert(gg == 0 && kk == 0);
            assert(nn + 2 < t2 < nn + 0 + 4);
            assert(t2 == nn + 3 + gg);
            assert(false);
        } else {
            let o1 = if t1 < nn {
                t1
            } else {
                t1 - 1
            };
            assert(0 <= o1 < oc && v1 == owned_block(d0, b, o, nn, o1)) by {
                if t1 < nn {
                } else if t1 == nn + 1 {
                } else if t1 == nn + 2 {
                    assert(nn > 156);
                } else {
                    assert(nn + 2 < t1 < nn + 3 + gg);
                }
            };
            assert(o1 < o2);
            assert(owned_block(d0, b, o, nn, o1) != owned_block(d0, b, o, nn, o2));
        }
    }
}


/// After installing the indirect-2 tier bookkeeping for a new data
/// block, every old data block still resolves to the same id and its
/// contents are untouched.
#[verifier::rlimit(100)]
proof fn lemma_high_preserve(
    ds: int,
    total: int,
    d0: Seq<Seq<u8>>,
    d2: Seq<Seq<u8>>,
    b: int,
    o: int,
    nn: int,
    gg: int,
    kk: int,
    ind2: int,
    grp: int,
    i: int,
)
    requires
        forall|t: int|
            0 <= t < owned_count(nn) ==> ds <= #[trigger] owned_block(d0, b, o, nn, t) < total,
        forall|t1: int, t2: int|
            #![trigger owned_block(d0, b, o, nn, t1), owned_block(d0, b, o, nn, t2)]
            0 <= t1 < t2 < owned_count(nn) ==> owned_block(d0, b, o, nn, t1) != owned_block(
                d0,
                b,
                o,
                nn,
                t2,
            ),
        0 < ds <= total,
        156 <= nn < 156 + 128 * 128,
        nn - 156 == 128 * gg + kk,
        0 <= kk < 128,
        0 <= gg,
        crate::efs::groups_for(nn) == if kk > 0 {
            gg + 1
        } else {
            gg
        },
        owned_count(nn) == if nn > 156 {
            nn + 2 + crate::efs::groups_for(nn)
        } else {
            nn + 1
        },
        b < ds,
        ds <= ind2 < total,
        ds <= grp < total,
        nn > 156 ==> ind2 == ino_ind2(d0, b, o),
        nn == 156 ==> forall|t: int|
            0 <= t < owned_count(nn) ==> #[trigger] owned_block(d0, b, o, nn, t) != ind2,
        kk > 0 ==> grp == ind_entry(d0, ind2, gg),
        kk == 0 ==> forall|t: int|
            0 <= t < owned_count(nn) ==> #[trigger] owned_block(d0, b, o, nn, t) != grp,
        // the disk after all bookkeeping writes
        forall|bb: int|
            ds <= bb < total && bb != ind2 && bb != grp ==> (#[trigger] d2[bb]) == d0[bb],
        forall|ii: int| 0 <= ii < 28 ==> #[trigger] ino_direct(d2, b, o, ii) == ino_direct(
            d0,
            b,
            o,
            ii,
        ),
        ino_ind1(d2, b, o) == ino_ind1(d0, b, o),
        ino_ind2(d2, b, o) == ind2,
        forall|gi: int|
            0 <= gi < gg ==> #[trigger] ind_entry(d2, ind2, gi) == ind_entry(d0, ind2, gi),
        ind_entry(d2, ind2, gg) == grp,
        forall|ki: int|
            0 <= ki < kk ==> #[trigger] ind_entry(d2, grp, ki) == ind_entry(d0, grp, ki),
        0 <= i < nn,
    ensures
        nth_block(d2, b, o, i) == nth_block(d0, b, o, i),
        d2[nth_block(d0, b, o, i)] == d0[nth_block(d0, b, o, i)],
{
    assert(owned_block(d0, b, o, nn, i) == nth_block(d0, b, o, i));
    let v = nth_block(d0, b, o, i);
    assert(v != ind2) by {
        if nn > 156 {
            assert(owned_block(d0, b, o, nn, nn + 1) == ino_ind2(d0, b, o));
        }
    };
    assert(v != grp) by {
        if kk > 0 {
            assert(owned_block(d0, b, o, nn, nn + 2 + gg) == ind_entry(d0, ind2, gg));
        }
    };
    assert(d2[v] == d0[v]);
    if i < 28 {
    } else if i < 156 {
        let i1 = ino_ind1(d0, b, o);
        assert(owned_block(d0, b, o, nn, nn) == i1);
        assert(i1 != ind2) by {
            if nn > 156 {
                assert(owned_block(d0, b, o, nn, nn + 1) == ino_ind2(d0, b, o));
            }
        };
        assert(i1 != grp) by {
            if kk > 0 {
                assert(owned_block(d0, b, o, nn, nn + 2 + gg) == ind_entry(d0, ind2, gg));
            }
        };
        assert(d2[i1] == d0[i1]);
    } else {
        let gi = (i - 156) / 128;
        let ki = (i - 156) % 128;
        lemma_group_le(nn, gg, kk, i);
        assert(nn > 156);
        assert(owned_block(d0, b, o, nn, nn + 1) == ino_ind2(d0, b, o));
        assert(gi < crate::efs::groups_for(nn));
        let gblk = ind_entry(d0, ind2, gi);
        assert(owned_block(d0, b, o, nn, nn + 2 + gi) == gblk);
        assert(ds <= gblk < total);
        if gi < gg {
            assert(ind_entry(d2, ind2, gi) == ind_entry(d0, ind2, gi));
            assert(gblk != grp) by {
                if kk > 0 {
                    assert(owned_block(d0, b, o, nn, nn + 2 + gg) == ind_entry(d0, ind2, gg));
                }
            };
            assert(gblk != ind2 && gblk != b);
            assert(d2[gblk] == d0[gblk]);
        } else {
            assert(gi == gg && ki < kk);
            assert(grp == ind_entry(d0, ind2, gg));
            assert(ind_entry(d2, grp, ki) == ind_entry(d0, grp, ki));
        }
    }
}

/// Bounds, bitmap marks and pairwise distinctness of the whole owned
/// family after an append in the indirect-2 tier.  `d0` is the state
/// with all bookkeeping installed but the new data block not yet
/// linked; the fresh blocks are characterized by not being owned.
#[verifier::rlimit(100)]
proof fn lemma_high_family(
    db: crate::bitmap::Bitmap,
    ds: int,
    total: int,
    d0: Seq<Seq<u8>>,
    d2: Seq<Seq<u8>>,
    b: int,
    o: int,
    nn: int,
    gg: int,
    kk: int,
    ind2: int,
    grp: int,
    blk: int,
)
    requires
        forall|t: int|
            0 <= t < owned_count(nn) ==> ds <= #[trigger] owned_block(d0, b, o, nn, t) < total,
        forall|t1: int, t2: int|
            #![trigger owned_block(d0, b, o, nn, t1), owned_block(d0, b, o, nn, t2)]
            0 <= t1 < t2 < owned_count(nn) ==> owned_block(d0, b, o, nn, t1) != owned_block(
                d0,
                b,
                o,
                nn,
                t2,
            ),
        forall|t: int|
            0 <= t < owned_count(nn) ==> db.spec_bit(
                d2,
                (#[trigger] owned_block(d0, b, o, nn, t)) - ds,
            ),
        0 < ds <= total,
        156 <= nn < 156 + 128 * 128,
        nn - 156 == 128 * gg + kk,
        0 <= kk < 128,
        0 <= gg,
        crate::efs::groups_for(nn) == if kk > 0 {
            gg + 1
        } else {
            gg
        },
        owned_count(nn) == if nn > 156 {
            nn + 2 + crate::efs::groups_for(nn)
        } else {
            nn + 1
        },
        ds <= ind2 < total && db.spec_bit(d2, ind2 - ds),
        ds <= grp < total && db.spec_bit(d2, grp - ds),
        ds <= blk < total && db.spec_bit(d2, blk - ds),
        nn > 156 ==> ind2 == owned_block(d0, b, o, nn, nn + 1),
        nn == 156 ==> forall|t: int|
            0 <= t < owned_count(nn) ==> #[trigger] owned_block(d0, b, o, nn, t) != ind2,
        kk > 0 ==> grp == owned_block(d0, b, o, nn, nn + 2 + gg),
        kk == 0 ==> forall|t: int|
            0 <= t < owned_count(nn) ==> #[trigger] owned_block(d0, b, o, nn, t) != grp,
        kk == 0 ==> grp != ind2,
        forall|t: int|
            0 <= t < owned_count(nn) ==> #[trigger] owned_block(d0, b, o, nn, t) != blk,
        blk != ind2 && blk != grp,
        // classification of the new owned family
        forall|t: int|
            0 <= t < nn ==> #[trigger] owned_block(d2, b, o, nn + 1, t) == owned_block(
                d0,
                b,
                o,
                nn,
                t,
            ),
        owned_block(d2, b, o, nn + 1, nn) == blk,
        owned_block(d2, b, o, nn + 1, nn + 1) == owned_block(d0, b, o, nn, nn),
        owned_block(d2, b, o, nn + 1, nn + 2) == ind2,
        forall|t: int|
            nn + 2 < t < nn + 3 + gg ==> #[trigger] owned_block(d2, b, o, nn + 1, t)
                == owned_block(d0, b, o, nn, t - 1),
        owned_block(d2, b, o, nn + 1, nn + 3 + gg) == grp,
    ensures
        forall|t: int|
            0 <= t < nn + gg + 4 ==> ds <= #[trigger] owned_block(d2, b, o, nn + 1, t) < total,
        forall|t: int|
            0 <= t < nn + gg + 4 ==> db.spec_bit(
                d2,
                (#[trigger] owned_block(d2, b, o, nn + 1, t)) - ds,
            ),
        forall|t1: int, t2: int|
            #![trigger owned_block(d2, b, o, nn + 1, t1), owned_block(d2, b, o, nn + 1, t2)]
            0 <= t1 < t2 < nn + gg + 4 ==> owned_block(d2, b, o, nn + 1, t1) != owned_block(
                d2,
                b,
                o,
                nn + 1,
                t2,
            ),
{
    let oc = owned_count(nn);
    assert forall|t: int| 0 <= t < nn + gg + 4 implies
        ds <= #[trigger] owned_block(d2, b, o, nn + 1, t) < total && db.spec_bit(
        d2,
        owned_block(d2, b, o, nn + 1, t) - ds,
    ) by {
        if t < nn {
            assert(owned_block(d2, b, o, nn + 1, t) == owned_block(d0, b, o, nn, t));
        } else if t == nn {
            assert(owned_block(d2, b, o, nn + 1, t) == blk);
        } else if t == nn + 1 {
            assert(owned_block(d2, b, o, nn + 1, t) == owned_block(d0, b, o, nn, nn));
        } else if t == nn + 2 {
            assert(owned_block(d2, b, o, nn + 1, t) == ind2);
        } else if t < nn + 3 + gg {
            assert(owned_block(d2, b, o, nn + 1, t) == owned_block(d0, b, o, nn, t - 1));
            assert(nn > 156) by {
                if nn == 156 {
                    assert(gg == 0);
                }
            };
            assert(0 <= t - 1 < oc);
        } else {
            assert(t == nn + 3 + gg);
            assert(owned_block(d2, b, o, nn + 1, t) == grp);
        }
    };
    assert forall|t1: int, t2: int|
        #![trigger owned_block(d2, b, o, nn + 1, t1), owned_block(d2, b, o, nn + 1, t2)]
        0 <= t1 < t2 < nn + gg + 4 implies owned_block(d2, b, o, nn + 1, t1) != owned_block(
        d2,
        b,
        o,
        nn + 1,
        t2,
    ) by {
        let v1 = owned_block(d2, b, o, nn + 1, t1);
        let v2 = owned_block(d2, b, o, nn + 1, t2);
        if t2 == nn {
            assert(v1 == owned_block(d0, b, o, nn, t1) && v2 == blk);
        } else if t2 == nn + 2 && nn == 156 {
            if t1 < nn {
                assert(v1 == owned_block(d0, b, o, nn, t1) && v2 == ind2);
            } else if t1 == nn {
                assert(v1 == blk && v2 == ind2);
            } else {
                assert(t1 == nn + 1);
                assert(v1 == owned_block(d0, b, o, nn, nn) && v2 == ind2);
            }
        } else if t2 == nn + 3 + gg && kk == 0 {
            if t1 == nn {
                assert(v1 == blk && v2 == grp);
            } else if t1 == nn + 2 && nn == 156 {
                assert(v1 == ind2 && v2 == grp);
            } else {
                let o1 = if t1 < nn {
                    t1
                } else {
                    t1 - 1
                };
                assert(0 <= o1 < oc && v1 == owned_block(d0, b, o, nn, o1)) by {
                    if t1 < nn {
                    } else if t1 == nn + 1 {
                    } else if t1 == nn + 2 {
                        assert(nn > 156);
                    } else {
                        assert(nn + 2 < t1 < nn + 3 + gg);
                    }
                };
            }
        } else {
            assert(t2 != nn);
            let o2 = if t2 < nn {
                t2
            } else {
                t2 - 1
            };
            assert(0 <= o2 < oc && v2 == owned_block(d0, b, o, nn, o2)) by {
                if t2 < nn {
                } else if t2 == nn + 1 {
                } else if t2 == nn + 2 {
                    assert(nn > 156);
                } else if t2 < nn + 3 + gg {
                } else {
                    assert(t2 == nn + 3 + gg && kk > 0);
                }
            };
            if t1 == nn {
                assert(v1 == blk);
            } else if t1 == nn + 2 && nn == 156 {
                assert(gg == 0 && kk == 0);
                assert(nn + 2 < t2 < nn + 0 + 4);
                assert(t2 == nn + 3 + gg);
                assert(false);
            } else {
                let o1 = if t1 < nn {
                    t1
                } else {
                    t1 - 1
                };
                assert(0 <= o1 < oc && v1 == owned_block(d0, b, o, nn, o1)) by {
                    if t1 < nn {
                    } else if t1 == nn + 1 {
                    } else if t1 == nn + 2 {
                        assert(nn > 156);
                    } else {
                        assert(nn + 2 < t1 < nn + 3 + gg);
                    }
                };
                assert(o1 < o2);
                assert(owned_block(d0, b, o, nn, o1) != owned_block(d0, b, o, nn, o2));
            }
        }
    };
}


/// `owned_count` grows with the number of data blocks.
proof fn lemma_owned_count_mono(a: int, c: int)
    by (nonlinear_arith)
    requires
        0 <= a <= c,
    ensures
        owned_count(a) <= owned_count(c),
{
}

/// Writing into one data block of a file changes exactly those file
/// bytes: the block map, the size and the type are untouched, and
/// every other byte keeps its value.
#[verifier::rlimit(100)]
proof fn lemma_data_write(
    ds: int,
    total: int,
    dpre: Seq<Seq<u8>>,
    d: Seq<Seq<u8>>,
    b: int,
    o: int,
    m: int,
    end: int,
    blk: int,
    n: int,
    boff: int,
    data: Seq<u8>,
    cur: int,
)
    requires
        forall|t: int|
            0 <= t < owned_count(m) ==> ds <= #[trigger] owned_block(dpre, b, o, m, t) < total,
        forall|t1: int, t2: int|
            #![trigger owned_block(dpre, b, o, m, t1), owned_block(dpre, b, o, m, t2)]
            0 <= t1 < t2 < owned_count(m) ==> owned_block(dpre, b, o, m, t1) != owned_block(
                dpre,
                b,
                o,
                m,
                t2,
            ),
        0 < ds <= total,
        0 <= b < ds,
        0 <= m <= crate::layout::MAX_DATA_BLOCKS,
        ino_size(dpre, b, o) == end,
        blocks_for(end) == m,
        0 <= end,
        0 <= n < m,
        blk == nth_block(dpre, b, o, n),
        ds <= blk < total,
        cur == n * 512 + boff,
        cur + data.len() <= end,
        0 <= boff,
        boff + data.len() <= 512,
        forall|bb: int| 0 <= bb < total && bb != blk ==> (#[trigger] d[bb]) == dpre[bb],
        d[blk] == crate::block_dev::splice(dpre[blk], boff, data),
        dpre[blk].len() == 512,
    ensures
        forall|i: int|
            0 <= i < m ==> #[trigger] nth_block(d, b, o, i) == nth_block(dpre, b, o, i),
        forall|t: int|
            0 <= t < owned_count(m) ==> #[trigger] owned_block(d, b, o, m, t) == owned_block(
                dpre,
                b,
                o,
                m,
                t,
            ),
        ino_size(d, b, o) == end,
        ino_type(d, b, o) == ino_type(dpre, b, o),
        forall|j: int|
            cur <= j < cur + data.len() ==> #[trigger] file_bytes(d, b, o)[j] == data[j - cur],
        forall|j: int|
            0 <= j < end && !(cur <= j < cur + data.len()) ==> #[trigger] file_bytes(d, b, o)[j]
                == file_bytes(dpre, b, o)[j],
{
    assert(d[b] == dpre[b]);
    assert(owned_block(dpre, b, o, m, n) == nth_block(dpre, b, o, n));
    assert forall|i: int| 0 <= i < m implies #[trigger] nth_block(d, b, o, i) == nth_block(
        dpre,
        b,
        o,
        i,
    ) by {
        assert(owned_block(dpre, b, o, m, i) == nth_block(dpre, b, o, i));
        if 28 <= i {
            let i1 = ino_ind1(dpre, b, o);
            assert(owned_block(dpre, b, o, m, m) == i1);
            assert(i1 != blk);
            assert(d[i1] == dpre[i1]);
            if 156 <= i {
                let i2 = ino_ind2(dpre, b, o);
                assert(owned_block(dpre, b, o, m, m + 1) == i2);
                assert(i2 != blk);
                assert(d[i2] == dpre[i2]);
                let gi = (i - 156) / 128;
                assert(0 <= gi < crate::efs::groups_for(m)) by (nonlinear_arith)
                    requires
                        156 <= i < m,
                        gi == (i - 156) / 128,
                ;
                let gb2 = ind_entry(dpre, i2, gi);
                assert(owned_block(dpre, b, o, m, m + 2 + gi) == gb2);
                assert(gb2 != blk);
                assert(d[gb2] == dpre[gb2]);
            }
        }
    };
    assert forall|t: int| 0 <= t < owned_count(m) implies #[trigger] owned_block(d, b, o, m, t)
        == owned_block(dpre, b, o, m, t) by {
        if t < m {
        } else if t == m {
            assert(owned_block(d, b, o, m, t) == ino_ind1(d, b, o));
            assert(owned_block(dpre, b, o, m, t) == ino_ind1(dpre, b, o));
        } else if t == m + 1 {
            assert(owned_block(d, b, o, m, t) == ino_ind2(d, b, o));
            assert(owned_block(dpre, b, o, m, t) == ino_ind2(dpre, b, o));
        } else {
            let i2 = ino_ind2(dpre, b, o);
            assert(owned_block(dpre, b, o, m, m + 1) == i2);
            assert(i2 != blk);
            assert(owned_block(d, b, o, m, t) == ind_entry(d, ino_ind2(d, b, o), t - m - 2));
            assert(d[i2] == dpre[i2]);
        }
    };
    assert forall|j: int| cur <= j < cur + data.len() implies #[trigger] file_bytes(d, b, o)[j]
        == data[j - cur] by {
        lemma_pos_decomp(n, j - n * 512);
        assert(j / 512 == n && j % 512 == boff + (j - cur)) by (nonlinear_arith)
            requires
                cur <= j < cur + data.len(),
                cur == n * 512 + boff,
                0 <= boff,
                boff + data.len() <= 512,
                0 <= n,
        ;
        assert(j < end);
        assert(nth_block(d, b, o, n) == blk);
        assert(d[blk][j % 512] == data[j - cur]);
    };
    assert forall|j: int| 0 <= j < end && !(cur <= j < cur + data.len()) implies
        #[trigger] file_bytes(d, b, o)[j] == file_bytes(dpre, b, o)[j] by {
        let jn = j / 512;
        assert(0 <= jn < m) by (nonlinear_arith)
            requires
                0 <= j < end,
                jn == j / 512,
                m == blocks_for(end),
        ;
        assert(nth_block(d, b, o, jn) == nth_block(dpre, b, o, jn));
        if jn == n {
            assert(nth_block(dpre, b, o, jn) == blk);
            assert(j % 512 < boff || j % 512 >= boff + data.len()) by (nonlinear_arith)
                requires
                    0 <= j,
                    !(cur <= j < cur + data.len()),
                    j / 512 == jn,
                    jn == n,
                    cur == n * 512 + boff,
                    0 <= boff,
                    boff + data.len() <= 512,
            ;
            assert(d[blk][j % 512] == dpre[blk][j % 512]);
        } else {
            assert(owned_block(dpre, b, o, m, jn) == nth_block(dpre, b, o, jn));
            assert(nth_block(dpre, b, o, jn) != blk);
            assert(d[nth_block(dpre, b, o, jn)] == dpre[nth_block(dpre, b, o, jn)]);
        }
    };
}

/// Overwriting only the size word of an inode record leaves the block
/// map and the type untouched.
#[verifier::rlimit(100)]
proof fn lemma_size_write(dpre: Seq<Seq<u8>>, d: Seq<Seq<u8>>, total: int, b: int, o: int, m: int)
    requires
        0 <= b < total,
        0 <= o && o + 128 <= 512,
        0 <= m <= crate::layout::MAX_DATA_BLOCKS,
        forall|bb: int| 0 <= bb < total && bb != b ==> (#[trigger] d[bb]) == dpre[bb],
        forall|y: int|
            0 <= y < 512 && !(o <= y < o + 4) ==> (#[trigger] d[b][y]) == dpre[b][y],
        forall|t: int|
            0 <= t < owned_count(m) ==> 0 <= #[trigger] owned_block(dpre, b, o, m, t) < total,
        forall|t: int|
            0 <= t < owned_count(m) ==> #[trigger] owned_block(dpre, b, o, m, t) != b,
    ensures
        forall|i: int|
            0 <= i < m ==> #[trigger] nth_block(d, b, o, i) == nth_block(dpre, b, o, i),
        forall|t: int|
            0 <= t < owned_count(m) ==> #[trigger] owned_block(d, b, o, m, t) == owned_block(
                dpre,
                b,
                o,
                m,
                t,
            ),
        ino_type(d, b, o) == ino_type(dpre, b, o),
{
    assert(ino_ind1(d, b, o) == ino_ind1(dpre, b, o)) by {
        assert(d[b][o + 116] == dpre[b][o + 116]);
        assert(d[b][o + 117] == dpre[b][o + 117]);
        assert(d[b][o + 118] == dpre[b][o + 118]);
        assert(d[b][o + 119] == dpre[b][o + 119]);
    };
    assert(ino_ind2(d, b, o) == ino_ind2(dpre, b, o)) by {
        assert(d[b][o + 120] == dpre[b][o + 120]);
        assert(d[b][o + 121] == dpre[b][o + 121]);
        assert(d[b][o + 122] == dpre[b][o + 122]);
        assert(d[b][o + 123] == dpre[b][o + 123]);
    };
    assert(ino_type(d, b, o) == ino_type(dpre, b, o)) by {
        assert(d[b][o + 124] == dpre[b][o + 124]);
        assert(d[b][o + 125] == dpre[b][o + 125]);
        assert(d[b][o + 126] == dpre[b][o + 126]);
        assert(d[b][o + 127] == dpre[b][o + 127]);
    };
    assert forall|i: int| 0 <= i < 28 implies #[trigger] ino_direct(d, b, o, i) == ino_direct(
        dpre,
        b,
        o,
        i,
    ) by {
        assert(d[b][o + 4 + 4 * i] == dpre[b][o + 4 + 4 * i]);
        assert(d[b][o + 4 + 4 * i + 1] == dpre[b][o + 4 + 4 * i + 1]);
        assert(d[b][o + 4 + 4 * i + 2] == dpre[b][o + 4 + 4 * i + 2]);
        assert(d[b][o + 4 + 4 * i + 3] == dpre[b][o + 4 + 4 * i + 3]);
    };
    assert forall|i: int| 0 <= i < m implies #[trigger] nth_block(d, b, o, i) == nth_block(
        dpre,
        b,
        o,
        i,
    ) by {
        assert(owned_block(dpre, b, o, m, i) == nth_block(dpre, b, o, i));
        if 28 <= i {
            let i1 = ino_ind1(dpre, b, o);
            assert(owned_block(dpre, b, o, m, m) == i1);
            assert(d[i1] == dpre[i1]);
            if 156 <= i {
                let i2 = ino_ind2(dpre, b, o);
                assert(owned_block(dpre, b, o, m, m + 1) == i2);
                assert(d[i2] == dpre[i2]);
                let gi = (i - 156) / 128;
                assert(0 <= gi < crate::efs::groups_for(m)) by (nonlinear_arith)
                    requires
                        156 <= i < m,
                        gi == (i - 156) / 128,
                ;
                let gb2 = ind_entry(dpre, i2, gi);
                assert(owned_block(dpre, b, o, m, m + 2 + gi) == gb2);
                assert(d[gb2] == dpre[gb2]);
            }
        }
    };
    assert forall|t: int| 0 <= t < owned_count(m) implies #[trigger] owned_block(d, b, o, m, t)
        == owned_block(dpre, b, o, m, t) by {
        if t < m {
        } else if t == m {
            assert(owned_block(d, b, o, m, t) == ino_ind1(d, b, o));
            assert(owned_block(dpre, b, o, m, t) == ino_ind1(dpre, b, o));
        } else if t == m + 1 {
            assert(owned_block(d, b, o, m, t) == ino_ind2(d, b, o));
            assert(owned_block(dpre, b, o, m, t) == ino_ind2(dpre, b, o));
        } else {
            let i2 = ino_ind2(dpre, b, o);
            assert(owned_block(dpre, b, o, m, m + 1) == i2);
            assert(owned_block(d, b, o, m, t) == ind_entry(d, ino_ind2(d, b, o), t - m - 2));
            assert(d[i2] == dpre[i2]);
        }
    };
}


/// One step of the data-writing loop, at the level of file bytes: the
/// freshly written range holds the chunk, everything written earlier
/// stays, and the rest still holds the pre-write bytes.
proof fn lemma_write_step(
    dg: Seq<Seq<u8>>,
    dpre: Seq<Seq<u8>>,
    d: Seq<Seq<u8>>,
    b: int,
    o: int,
    offset: int,
    cur: int,
    cnt2: int,
    end: int,
    bufseq: Seq<u8>,
    chunk: Seq<u8>,
)
    requires
        chunk.len() == cnt2,
        0 <= offset <= cur,
        cur + cnt2 <= offset + bufseq.len(),
        offset + bufseq.len() <= end,
        forall|j: int| 0 <= j < cnt2 ==> #[trigger] chunk[j] == bufseq[cur - offset + j],
        forall|j: int|
            cur <= j < cur + cnt2 ==> #[trigger] file_bytes(d, b, o)[j] == chunk[j - cur],
        forall|j: int|
            0 <= j < end && !(cur <= j < cur + cnt2) ==> #[trigger] file_bytes(d, b, o)[j]
                == file_bytes(dpre, b, o)[j],
        forall|j: int|
            offset <= j < cur ==> #[trigger] file_bytes(dpre, b, o)[j] == bufseq[j - offset],
        forall|j: int|
            0 <= j < end && !(offset <= j < cur) ==> #[trigger] file_bytes(dpre, b, o)[j]
                == file_bytes(dg, b, o)[j],
    ensures
        forall|j: int|
            offset <= j < cur + cnt2 ==> #[trigger] file_bytes(d, b, o)[j] == bufseq[j - offset],
        forall|j: int|
            0 <= j < end && !(offset <= j < cur + cnt2) ==> #[trigger] file_bytes(d, b, o)[j]
                == file_bytes(dg, b, o)[j],
{
    assert forall|j: int| offset <= j < cur + cnt2 implies #[trigger] file_bytes(d, b, o)[j]
        == bufseq[j - offset] by {
        if j < cur {
            assert(file_bytes(d, b, o)[j] == file_bytes(dpre, b, o)[j]);
        } else {
            assert(file_bytes(d, b, o)[j] == chunk[j - cur]);
            assert(chunk[j - cur] == bufseq[cur - offset + (j - cur)]);
        }
    };
    assert forall|j: int| 0 <= j < end && !(offset <= j < cur + cnt2) implies #[trigger] file_bytes(
        d,
        b,
        o,
    )[j] == file_bytes(dg, b, o)[j] by {
        assert(file_bytes(d, b, o)[j] == file_bytes(dpre, b, o)[j]);
    };
}


/// When nothing an inode reads has changed — its record bytes and the
/// whole data area — its block map and contents are unchanged.
proof fn lemma_untouched_preserve(
    ds: int,
    total: int,
    dpre: Seq<Seq<u8>>,
    d: Seq<Seq<u8>>,
    b: int,
    o: int,
    m: int,
)
    requires
        forall|t: int|
            0 <= t < owned_count(m) ==> ds <= #[trigger] owned_block(dpre, b, o, m, t) < total,
        0 < ds <= total,
        0 <= b,
        0 <= o,
        0 <= m <= crate::layout::MAX_DATA_BLOCKS,
        forall|y: int| o <= y < o + 128 ==> (#[trigger] d[b][y]) == dpre[b][y],
        forall|bb: int| ds <= bb < total ==> (#[trigger] d[bb]) == dpre[bb],
        m == blocks_for(ino_size(dpre, b, o)),
    ensures
        ino_size(d, b, o) == ino_size(dpre, b, o),
        ino_type(d, b, o) == ino_type(dpre, b, o),
        forall|i: int|
            0 <= i < m ==> #[trigger] nth_block(d, b, o, i) == nth_block(dpre, b, o, i),
        forall|t: int|
            0 <= t < owned_count(m) ==> #[trigger] owned_block(d, b, o, m, t) == owned_block(
                dpre,
                b,
                o,
                m,
                t,
            ),
        forall|j: int|
            0 <= j < ino_size(dpre, b, o) ==> #[trigger] file_bytes(d, b, o)[j] == file_bytes(
                dpre,
                b,
                o,
            )[j],
{
    assert(ino_ind1(d, b, o) == ino_ind1(dpre, b, o));
    assert(ino_ind2(d, b, o) == ino_ind2(dpre, b, o));
    assert(forall|i: int|
        0 <= i < 28 ==> #[trigger] ino_direct(d, b, o, i) == ino_direct(dpre, b, o, i));
    assert forall|i: int| 0 <= i < m implies #[trigger] nth_block(d, b, o, i) == nth_block(
        dpre,
        b,
        o,
        i,
    ) by {
        assert(owned_block(dpre, b, o, m, i) == nth_block(dpre, b, o, i));
        if 28 <= i {
            let i1 = ino_ind1(dpre, b, o);
            assert(owned_block(dpre, b, o, m, m) == i1);
            assert(d[i1] == dpre[i1]);
            if 156 <= i {
                let i2 = ino_ind2(dpre, b, o);
                assert(owned_block(dpre, b, o, m, m + 1) == i2);
                assert(d[i2] == dpre[i2]);
                let gi = (i - 156) / 128;
                assert(0 <= gi < crate::efs::groups_for(m)) by (nonlinear_arith)
                    requires
                        156 <= i < m,
                        gi == (i - 156) / 128,
                ;
                let gb2 = ind_entry(dpre, i2, gi);
                assert(owned_block(dpre, b, o, m, m + 2 + gi) == gb2);
                assert(d[gb2] == dpre[gb2]);
            }
        }
    };
    assert forall|t: int| 0 <= t < owned_count(m) implies #[trigger] owned_block(d, b, o, m, t)
        == owned_block(dpre, b, o, m, t) by {
        if t < m {
        } else if t == m {
            assert(owned_block(d, b, o, m, t) == ino_ind1(d, b, o));
            assert(owned_block(dpre, b, o, m, t) == ino_ind1(dpre, b, o));
        } else if t == m + 1 {
            assert(owned_block(d, b, o, m, t) == ino_ind2(d, b, o));
            assert(owned_block(dpre, b, o, m, t) == ino_ind2(dpre, b, o));
        } else {
            let i2 = ino_ind2(dpre, b, o);
            assert(owned_block(dpre, b, o, m, m + 1) == i2);
            assert(owned_block(d, b, o, m, t) == ind_entry(d, ino_ind2(d, b, o), t - m - 2));
            assert(d[i2] == dpre[i2]);
        }
    };
    assert forall|j: int| 0 <= j < ino_size(dpre, b, o) implies #[trigger] file_bytes(d, b, o)[j]
        == file_bytes(dpre, b, o)[j] by {
        let jn = j / 512;
        assert(0 <= jn < blocks_for(ino_size(dpre, b, o))) by (nonlinear_arith)
            requires
                0 <= j < ino_size(dpre, b, o),
                jn == j / 512,
        ;
        if jn < m {
            assert(nth_block(d, b, o, jn) == nth_block(dpre, b, o, jn));
            assert(owned_block(dpre, b, o, m, jn) == nth_block(dpre, b, o, jn));
            assert(d[nth_block(dpre, b, o, jn)] == dpre[nth_block(dpre, b, o, jn)]);
        }
    };
}


/// The position of a file's inode record on disk.
pub struct Inode {
    pub block_id: usize,
    pub block_offset: usize,
}

/// The inode record handle at record number `id`.
pub open spec fn spec_inode_at(fs: EasyFileSystem, id: int) -> Inode {
    Inode {
        block_id: fs.spec_inode_block(id) as usize,
        block_offset: EasyFileSystem::spec_inode_offset(id) as usize,
    }
}

/// The entry address a program image declares: its first four bytes,
/// least significant first; an image shorter than that starts at
/// address zero.
pub open spec fn image_entry(c: Seq<u8>) -> int {
    if c.len() >= 4 {
        c[0] + 256 * (c[1] + 256 * (c[2] + 256 * c[3]))
    } else {
        0
    }
}

impl Inode {
    /// The record position as spec integers.
    pub open spec fn b(self) -> int {
        self.block_id as int
    }

    /// The record's byte offset as a spec integer.
    pub open spec fn o(self) -> int {
        self.block_offset as int
    }

    /// The file size currently on disk.
    pub open spec fn spec_size(self, fs: EasyFileSystem) -> int {
        ino_size(fs.disk(), self.b(), self.o())
    }

    /// The file contents currently on disk.
    pub open spec fn contents(self, fs: EasyFileSystem) -> Seq<u8> {
        file_bytes(fs.disk(), self.b(), self.o())
    }

    /// The inode's pointer structure is well formed for its size.
    pub open spec fn ok(self, fs: EasyFileSystem) -> bool {
        fs.inode_ok(fs.disk(), self.b(), self.o(), blocks_for(self.spec_size(fs)))
    }

    /// The inode of the root directory.
    pub fn root(fs: &EasyFileSystem) -> (r: Inode)
        requires
            fs.wf(),
            fs.inode_capacity() >= 1,
        ensures
            r.b() == fs.spec_inode_block(0),
            r.o() == 0,
    {
        let (block_id, block_offset) = fs.get_disk_inode_pos(0);
        Inode { block_id, block_offset }
    }

    /// The inode holding record `inode_id`.
    pub fn from_id(fs: &EasyFileSystem, inode_id: u32) -> (r: Inode)
        requires
            fs.wf(),
            inode_id < fs.inode_capacity(),
        ensures
            r.b() == fs.spec_inode_block(inode_id as int),
            r.o() == EasyFileSystem::spec_inode_offset(inode_id as int),
            r == spec_inode_at(*fs, inode_id as int),
    {
        let (block_id, block_offset) = fs.get_disk_inode_pos(inode_id);
        Inode { block_id, block_offset }
    }

    /// The file's size in bytes.
    pub fn size(&self, fs: &mut EasyFileSystem) -> (r: u32)
        requires
            old(fs).wf(),
            self.b() < old(fs).total_spec(),
            self.o() + 128 <= 512,
            0 <= self.o(),
        ensures
            final(fs).wf(),
            final(fs).same_layout(*old(fs)),
            final(fs).disk() == old(fs).disk(),
            r as int == self.spec_size(*old(fs)),
    {
        read_u32(&mut fs.cache, self.block_id, self.block_offset)
    }

    /// The file's type word.
    pub fn type_word(&self, fs: &mut EasyFileSystem) -> (r: u32)
        requires
            old(fs).wf(),
            self.b() < old(fs).total_spec(),
            self.o() + 128 <= 512,
            0 <= self.o(),
        ensures
            final(fs).wf(),
            final(fs).same_layout(*old(fs)),
            final(fs).disk() == old(fs).disk(),
            r as int == ino_type(old(fs).disk(), self.b(), self.o()),
    {
        read_u32(&mut fs.cache, self.block_id, self.block_offset + 124)
    }

    /// The id of the `n`-th data block, resolved through the pointer
    /// tiers.
    fn get_block_id(&self, fs: &mut EasyFileSystem, n: u32) -> (r: usize)
        requires
            old(fs).wf(),
            self.ok(*old(fs)),
            n < blocks_for(self.spec_size(*old(fs))),
        ensures
            final(fs).wf(),
            final(fs).same_layout(*old(fs)),
            final(fs).disk() == old(fs).disk(),
            r == nth_block(old(fs).disk(), self.b(), self.o(), n as int),
            old(fs).data_area_start_block <= r < old(fs).total_spec(),
    {
        let ghost d = fs.disk();
        let ghost m = blocks_for(self.spec_size(*old(fs)));
        proof {
            assert(owned_block(d, self.b(), self.o(), m, n as int) == nth_block(
                d,
                self.b(),
                self.o(),
                n as int,
            ));
        }
        if n < 28 {
            let r = read_u32(&mut fs.cache, self.block_id, self.block_offset + 4 + 4 * (n as usize));
            r as usize
        } else if n < 156 {
            proof {
                assert(owned_block(d, self.b(), self.o(), m, m) < old(fs).total_spec());
            }
            let ind1 = read_u32(&mut fs.cache, self.block_id, self.block_offset + 116);
            let r = read_u32(&mut fs.cache, ind1 as usize, 4 * (n as usize - 28));
            r as usize
        } else {
            let g = (n as usize - 156) / 128;
            let k = (n as usize - 156) % 128;
            proof {
                assert(owned_block(d, self.b(), self.o(), m, m + 1) < old(fs).total_spec());
                assert(0 <= g && g < crate::efs::groups_for(m) && k < 128) by (nonlinear_arith)
                    requires
                        156 <= n < m,
                        g == ((n - 156) as int) / 128,
                        k == ((n - 156) as int) % 128,
                        m <= crate::layout::MAX_DATA_BLOCKS,
                ;
                assert(owned_block(d, self.b(), self.o(), m, m + 2 + g) < old(fs).total_spec());
            }
            let ind2 = read_u32(&mut fs.cache, self.block_id, self.block_offset + 120);
            let grp = read_u32(&mut fs.cache, ind2 as usize, 4 * g);
            let r = read_u32(&mut fs.cache, grp as usize, 4 * k);
            r as usize
        }
    }

    /// Overwrite the size word; the pointer words and everything else
    /// on the logical disk keep their value.
    fn set_size(&self, fs: &mut EasyFileSystem, new_size: u32)
        requires
            old(fs).wf(),
            old(fs).inode_area_start_block <= self.b() < old(fs).data_bitmap.start_block_id,
            0 <= self.o() && self.o() + 128 <= 512,
        ensures
            final(fs).wf(),
            final(fs).same_layout(*old(fs)),
            ino_size(final(fs).disk(), self.b(), self.o()) == new_size,
            ino_type(final(fs).disk(), self.b(), self.o()) == ino_type(
                old(fs).disk(),
                self.b(),
                self.o(),
            ),
            forall|b2: int|
                0 <= b2 < old(fs).total_spec() && b2 != self.b() ==> (#[trigger] final(fs).disk()[b2]) == old(fs).disk()[b2],
            forall|y: int|
                0 <= y < 512 && !(self.o() <= y < self.o() + 4) ==> (#[trigger] final(fs).disk()[self.b()][y]) == old(fs).disk()[self.b()][y],
    {
        write_u32(&mut fs.cache, self.block_id, self.block_offset, new_size);
    }

    /// One tier of `append_block`.
    #[verifier::rlimit(100)]
    fn append_direct(&self, fs: &mut EasyFileSystem, n: u32)
        requires
            n < 28,
            old(fs).wf(),
            old(fs).inode_ok(old(fs).disk(), self.b(), self.o(), n as int),
            n < crate::layout::MAX_DATA_BLOCKS,
            old(fs).data_bitmap.free_below(old(fs).disk(), old(fs).data_area_blocks())
                >= owned_count(n + 1) - owned_count(n as int),
        ensures
            final(fs).wf(),
            final(fs).same_layout(*old(fs)),
            final(fs).inode_ok(final(fs).disk(), self.b(), self.o(), n + 1),
            forall|i: int|
                0 <= i < n ==> #[trigger] nth_block(final(fs).disk(), self.b(), self.o(), i)
                    == nth_block(old(fs).disk(), self.b(), self.o(), i),
            forall|i: int|
                0 <= i < n ==> (#[trigger] final(fs).disk()[nth_block(
                    old(fs).disk(),
                    self.b(),
                    self.o(),
                    i,
                )]) == old(fs).disk()[nth_block(old(fs).disk(), self.b(), self.o(), i)],
            ino_size(final(fs).disk(), self.b(), self.o()) == ino_size(
                old(fs).disk(),
                self.b(),
                self.o(),
            ),
            ino_type(final(fs).disk(), self.b(), self.o()) == ino_type(
                old(fs).disk(),
                self.b(),
                self.o(),
            ),
            final(fs).data_bitmap.free_below(final(fs).disk(), final(fs).data_area_blocks())
                == old(fs).data_bitmap.free_below(old(fs).disk(), old(fs).data_area_blocks()) - (
            owned_count(n + 1) - owned_count(n as int)),
            forall|bb: int|
                0 <= bb < old(fs).data_bitmap.start_block_id && bb != self.b() ==> (
                #[trigger] final(fs).disk()[bb]) == old(fs).disk()[bb],
            forall|bb: int|
                0 <= bb < old(fs).total_spec() && bb != self.b() && !(
                old(fs).data_bitmap.start_block_id <= bb < old(fs).data_area_start_block) && (
                forall|t: int|
                    0 <= t < owned_count(n + 1) ==> #[trigger] owned_block(
                        final(fs).disk(),
                        self.b(),
                        self.o(),
                        n + 1,
                        t,
                    ) != bb) ==> (#[trigger] final(fs).disk()[bb]) == old(fs).disk()[bb],
            forall|y: int|
                0 <= y < 512 && !(self.o() + 4 <= y < self.o() + 124) ==> (#[trigger] final(fs).disk()[self.b()][y]) == old(fs).disk()[self.b()][y],
    {
        let ghost b = self.b();
        let ghost o = self.o();
        let ghost d0 = fs.disk();
        let ghost fs0 = *old(fs);
        let ghost free0 = fs0.data_bitmap.free_below(d0, fs0.data_area_blocks());

            let blk = fs.alloc_data();
            let ghost d1 = fs.disk();
            write_u32(
                &mut fs.cache,
                self.block_id,
                self.block_offset + 4 + 4 * (n as usize),
                blk as u32,
            );
            proof {
                let d2 = fs.disk();
                assert(d1[b] == d0[b]);
                lemma_bitmap_region_same(
                    fs0.data_bitmap,
                    d1,
                    d2,
                    fs0.data_area_blocks(),
                    fs0.total_spec(),
                );
                assert(ino_size(d2, b, o) == ino_size(d0, b, o));
                assert(ino_type(d2, b, o) == ino_type(d0, b, o));
                assert(forall|i: int|
                    0 <= i < 28 && i != n ==> #[trigger] ino_direct(d2, b, o, i) == ino_direct(
                        d0,
                        b,
                        o,
                        i,
                    ));
                assert(ino_direct(d2, b, o, n as int) == blk);
                assert forall|i: int| 0 <= i < n implies #[trigger] nth_block(d2, b, o, i)
                    == nth_block(d0, b, o, i) by {
                    assert(owned_block(d0, b, o, n as int, i) == nth_block(d0, b, o, i));
                };
                assert forall|i: int| 0 <= i < n implies (#[trigger] d2[nth_block(d0, b, o, i)])
                    == d0[nth_block(d0, b, o, i)] by {
                    assert(owned_block(d0, b, o, n as int, i) == nth_block(d0, b, o, i));
                };
                assert(owned_count(n + 1) == n + 1 && owned_count(n as int) == n);
                assert forall|t: int| 0 <= t < n + 1 implies
                    fs0.data_area_start_block <= #[trigger] owned_block(d2, b, o, n + 1, t)
                        < fs0.total_spec() && fs.data_bitmap.spec_bit(
                    d2,
                    owned_block(d2, b, o, n + 1, t) - fs0.data_area_start_block,
                ) by {
                    if t < n {
                        assert(owned_block(d2, b, o, n + 1, t) == owned_block(
                            d0,
                            b,
                            o,
                            n as int,
                            t,
                        ));
                        assert(fs0.data_bitmap.spec_bit(
                            d0,
                            owned_block(d0, b, o, n as int, t) - fs0.data_area_start_block,
                        ));
                    } else {
                        assert(owned_block(d2, b, o, n + 1, t) == blk);
                    }
                };
                assert forall|t1: int, t2: int|
                    #![trigger owned_block(d2, b, o, n + 1, t1), owned_block(d2, b, o, n + 1, t2)]
                    0 <= t1 < t2 < n + 1 implies owned_block(d2, b, o, n + 1, t1) != owned_block(
                    d2,
                    b,
                    o,
                    n + 1,
                    t2,
                ) by {
                    assert(owned_block(d2, b, o, n + 1, t1) == owned_block(d0, b, o, n as int, t1));
                    if t2 < n {
                        assert(owned_block(d2, b, o, n + 1, t2) == owned_block(
                            d0,
                            b,
                            o,
                            n as int,
                            t2,
                        ));
                    } else {
                        assert(owned_block(d2, b, o, n + 1, t2) == blk);
                        assert(fs0.data_bitmap.spec_bit(
                            d0,
                            owned_block(d0, b, o, n as int, t1) - fs0.data_area_start_block,
                        ));
                    }
                };
                assert(fs.inode_ok(d2, b, o, n + 1));
            }
    }

    /// One tier of `append_block`.
    #[verifier::rlimit(100)]
    fn append_mid(&self, fs: &mut EasyFileSystem, n: u32)
        requires
            28 <= n < 156,
            old(fs).wf(),
            old(fs).inode_ok(old(fs).disk(), self.b(), self.o(), n as int),
            n < crate::layout::MAX_DATA_BLOCKS,
            old(fs).data_bitmap.free_below(old(fs).disk(), old(fs).data_area_blocks())
                >= owned_count(n + 1) - owned_count(n as int),
        ensures
            final(fs).wf(),
            final(fs).same_layout(*old(fs)),
            final(fs).inode_ok(final(fs).disk(), self.b(), self.o(), n + 1),
            forall|i: int|
                0 <= i < n ==> #[trigger] nth_block(final(fs).disk(), self.b(), self.o(), i)
                    == nth_block(old(fs).disk(), self.b(), self.o(), i),
            forall|i: int|
                0 <= i < n ==> (#[trigger] final(fs).disk()[nth_block(
                    old(fs).disk(),
                    self.b(),
                    self.o(),
                    i,
                )]) == old(fs).disk()[nth_block(old(fs).disk(), self.b(), self.o(), i)],
            ino_size(final(fs).disk(), self.b(), self.o()) == ino_size(
                old(fs).disk(),
                self.b(),
                self.o(),
            ),
            ino_type(final(fs).disk(), self.b(), self.o()) == ino_type(
                old(fs).disk(),
                self.b(),
                self.o(),
            ),
            final(fs).data_bitmap.free_below(final(fs).disk(), final(fs).data_area_blocks())
                == old(fs).data_bitmap.free_below(old(fs).disk(), old(fs).data_area_blocks()) - (
            owned_count(n + 1) - owned_count(n as int)),
            forall|bb: int|
                0 <= bb < old(fs).data_bitmap.start_block_id && bb != self.b() ==> (
                #[trigger] final(fs).disk()[bb]) == old(fs).disk()[bb],
            forall|y: int|
                0 <= y < 512 && !(self.o() + 4 <= y < self.o() + 124) ==> (#[trigger] final(fs).disk()[self.b()][y]) == old(fs).disk()[self.b()][y],
    {
        let ghost b = self.b();
        let ghost o = self.o();
        let ghost d0 = fs.disk();
        let ghost fs0 = *old(fs);
        let ghost ds = fs0.data_area_start_block as int;
        let ghost db = fs0.data_bitmap;
        let ind1: u32;
        if n == 28 {
            let i1 = fs.alloc_data();
            let ghost dX = fs.disk();
            write_u32(&mut fs.cache, self.block_id, self.block_offset + 116, i1 as u32);
            ind1 = i1 as u32;
            proof {
                lemma_bitmap_region_same(db, dX, fs.disk(), fs0.data_area_blocks(), fs0.total_spec());
            }
        } else {
            ind1 = read_u32(&mut fs.cache, self.block_id, self.block_offset + 116);
            proof {
                assert(owned_block(d0, b, o, n as int, n as int) == ino_ind1(d0, b, o));
            }
        }
        let ghost fsM = *fs;
        let ghost dM = fs.disk();
        proof {
            assert(ino_ind1(dM, b, o) == ind1);
            assert(ino_size(dM, b, o) == ino_size(d0, b, o));
            assert(ino_type(dM, b, o) == ino_type(d0, b, o));
            assert forall|i: int| 0 <= i < 28 implies #[trigger] ino_direct(dM, b, o, i)
                == ino_direct(d0, b, o, i) by {
                assert(dM[b][o + 4 + 4 * i] == d0[b][o + 4 + 4 * i]);
                assert(dM[b][o + 4 + 4 * i + 1] == d0[b][o + 4 + 4 * i + 1]);
                assert(dM[b][o + 4 + 4 * i + 2] == d0[b][o + 4 + 4 * i + 2]);
                assert(dM[b][o + 4 + 4 * i + 3] == d0[b][o + 4 + 4 * i + 3]);
            };
            assert(ds <= ind1 < fs0.total_spec()) by {
                if n > 28 {
                    assert(owned_block(d0, b, o, n as int, n as int) == ino_ind1(d0, b, o));
                }
            };
            assert(db.free_below(dM, fs0.data_area_blocks()) == db.free_below(
                d0,
                fs0.data_area_blocks(),
            ) - if n == 28 {
                1int
            } else {
                0int
            });
            assert(forall|j: int|
                0 <= j < db.blocks * 4096 && db.spec_bit(d0, j) ==> #[trigger] db.spec_bit(dM, j));
            assert(db.spec_bit(dM, ind1 - ds));
        }
        let blk = fs.alloc_data();
        let ghost dA = fs.disk();
        write_u32(&mut fs.cache, ind1 as usize, 4 * (n as usize - 28), blk as u32);
        proof {
            let d2 = fs.disk();
            lemma_bitmap_region_same(db, dA, d2, fs0.data_area_blocks(), fs0.total_spec());
            // the inode block is untouched after the indirect-1 step
            assert(ind1 != b);
            assert(d2[b] == dM[b]);
            assert(ino_ind1(d2, b, o) == ind1);
            assert(ino_size(d2, b, o) == ino_size(d0, b, o));
            assert(ino_type(d2, b, o) == ino_type(d0, b, o));
            assert(ind_entry(d2, ind1 as int, n - 28) == blk);
            // entries of the indirect block below n - 28 are intact
            assert(dM[ind1 as int] == d0[ind1 as int]);
            assert(dA[ind1 as int] == dM[ind1 as int]);
            assert(forall|g: int|
                0 <= g < n - 28 ==> #[trigger] ind_entry(d2, ind1 as int, g) == ind_entry(
                    d0,
                    ind1 as int,
                    g,
                ));
            assert forall|i: int| 0 <= i < n implies #[trigger] nth_block(d2, b, o, i)
                == nth_block(d0, b, o, i) by {
                assert(owned_block(d0, b, o, n as int, i) == nth_block(d0, b, o, i));
                if i < 28 {
                    assert(ino_direct(d2, b, o, i) == ino_direct(d0, b, o, i));
                }
            };
            // data blocks' contents are untouched: they differ from the
            // inode block, the bitmap blocks and the indirect-1 block
            assert forall|i: int| 0 <= i < n implies (#[trigger] d2[nth_block(d0, b, o, i)])
                == d0[nth_block(d0, b, o, i)] by {
                assert(owned_block(d0, b, o, n as int, i) == nth_block(d0, b, o, i));
                let v = nth_block(d0, b, o, i);
                assert(v != ind1) by {
                    if n > 28 {
                        assert(owned_block(d0, b, o, n as int, n as int) == ino_ind1(d0, b, o));
                    } else {
                        assert(db.spec_bit(d0, v - ds));
                        assert(!db.spec_bit(d0, ind1 - ds));
                    }
                };
            };
            assert(owned_count(n + 1) == n + 2);
            assert(owned_count(n as int) == if n == 28 {
                28int
            } else {
                n + 1
            });
            assert(db.free_below(d2, fs0.data_area_blocks()) == db.free_below(
                d0,
                fs0.data_area_blocks(),
            ) - (owned_count(n + 1) - owned_count(n as int)));
            assert(!db.spec_bit(dM, blk - ds));
            assert forall|t: int| 0 <= t < n + 2 implies
                ds <= #[trigger] owned_block(d2, b, o, n + 1, t) < fs0.total_spec()
                    && db.spec_bit(d2, owned_block(d2, b, o, n + 1, t) - ds) by {
                if t < n {
                    assert(owned_block(d2, b, o, n + 1, t) == nth_block(d0, b, o, t));
                    assert(owned_block(d0, b, o, n as int, t) == nth_block(d0, b, o, t));
                    assert(db.spec_bit(d0, nth_block(d0, b, o, t) - ds));
                } else if t == n {
                    assert(owned_block(d2, b, o, n + 1, t) == blk);
                } else {
                    assert(owned_block(d2, b, o, n + 1, t) == ind1);
                }
            };
            assert forall|t1: int, t2: int|
                #![trigger owned_block(d2, b, o, n + 1, t1), owned_block(d2, b, o, n + 1, t2)]
                0 <= t1 < t2 < n + 2 implies owned_block(d2, b, o, n + 1, t1) != owned_block(
                d2,
                b,
                o,
                n + 1,
                t2,
            ) by {
                if t2 < n {
                    assert(owned_block(d2, b, o, n + 1, t1) == owned_block(d0, b, o, n as int, t1));
                    assert(owned_block(d2, b, o, n + 1, t2) == owned_block(d0, b, o, n as int, t2));
                } else if t2 == n {
                    let v1 = owned_block(d0, b, o, n as int, t1);
                    assert(owned_block(d2, b, o, n + 1, t1) == v1);
                    assert(db.spec_bit(d0, v1 - ds));
                    assert(db.spec_bit(dM, v1 - ds));
                } else {
                    if t1 < n {
                        let v1 = owned_block(d0, b, o, n as int, t1);
                        assert(owned_block(d2, b, o, n + 1, t1) == v1);
                        if n > 28 {
                            assert(owned_block(d0, b, o, n as int, n as int) == ino_ind1(
                                d0,
                                b,
                                o,
                            ));
                            assert(v1 != owned_block(d0, b, o, n as int, n as int));
                        } else {
                            assert(db.spec_bit(d0, v1 - ds));
                            assert(!db.spec_bit(d0, ind1 - ds));
                        }
                    } else {
                        assert(owned_block(d2, b, o, n + 1, t1) == blk);
                        assert(db.spec_bit(dM, ind1 - ds));
                        assert(!db.spec_bit(dM, blk - ds));
                    }
                }
            };
            assert(fs.inode_ok(d2, b, o, n + 1));
        }
    }

    /// Install the indirect-2 pointer when data block 156 arrives; the
    /// rest of the inode and every old data block keep their values.
    #[verifier::rlimit(100)]
    fn install_ind2(&self, fs: &mut EasyFileSystem, n: u32) -> (ind2: u32)
        requires
            156 <= n < crate::layout::MAX_DATA_BLOCKS,
            old(fs).wf(),
            old(fs).inode_ok(old(fs).disk(), self.b(), self.o(), n as int),
            n == 156 ==> old(fs).data_bitmap.free_below(
                old(fs).disk(),
                old(fs).data_area_blocks(),
            ) >= 1,
        ensures
            final(fs).wf(),
            final(fs).same_layout(*old(fs)),
            final(fs).inode_ok(final(fs).disk(), self.b(), self.o(), n as int),
            ino_ind2(final(fs).disk(), self.b(), self.o()) == ind2,
            old(fs).data_area_start_block <= ind2 < old(fs).total_spec(),
            final(fs).data_bitmap.spec_bit(
                final(fs).disk(),
                ind2 - old(fs).data_area_start_block,
            ),
            n > 156 ==> final(fs).disk() == old(fs).disk(),
            n == 156 ==> !old(fs).data_bitmap.spec_bit(
                old(fs).disk(),
                ind2 - old(fs).data_area_start_block,
            ),
            forall|i: int|
                0 <= i < n ==> #[trigger] nth_block(final(fs).disk(), self.b(), self.o(), i)
                    == nth_block(old(fs).disk(), self.b(), self.o(), i),
            ino_size(final(fs).disk(), self.b(), self.o()) == ino_size(
                old(fs).disk(),
                self.b(),
                self.o(),
            ),
            ino_type(final(fs).disk(), self.b(), self.o()) == ino_type(
                old(fs).disk(),
                self.b(),
                self.o(),
            ),
            ino_ind1(final(fs).disk(), self.b(), self.o()) == ino_ind1(
                old(fs).disk(),
                self.b(),
                self.o(),
            ),
            forall|i: int|
                0 <= i < 28 ==> #[trigger] ino_direct(final(fs).disk(), self.b(), self.o(), i)
                    == ino_direct(old(fs).disk(), self.b(), self.o(), i),
            forall|j: int|
                0 <= j < old(fs).data_bitmap.blocks * 4096 && old(fs).data_bitmap.spec_bit(
                    old(fs).disk(),
                    j,
                ) ==> #[trigger] final(fs).data_bitmap.spec_bit(final(fs).disk(), j),
            final(fs).data_bitmap.free_below(final(fs).disk(), final(fs).data_area_blocks())
                == old(fs).data_bitmap.free_below(old(fs).disk(), old(fs).data_area_blocks())
                - if n == 156 {
                1int
            } else {
                0int
            },
            forall|bb: int|
                0 <= bb < old(fs).total_spec() && bb != self.b() && !(
                old(fs).data_bitmap.start_block_id <= bb < old(fs).data_area_start_block) ==> (
                #[trigger] final(fs).disk()[bb]) == old(fs).disk()[bb],
            forall|y: int|
                0 <= y < 512 && !(self.o() + 4 <= y < self.o() + 124) ==> (#[trigger] final(
                fs).disk()[self.b()][y]) == old(fs).disk()[self.b()][y],
    {
        let ghost b = self.b();
        let ghost o = self.o();
        let ghost d0 = fs.disk();
        let ghost fs0 = *old(fs);
        let ghost ds = fs0.data_area_start_block as int;
        let ghost db = fs0.data_bitmap;
        if n == 156 {
            let i2 = fs.alloc_data();
            let ghost dx = fs.disk();
            write_u32(&mut fs.cache, self.block_id, self.block_offset + 120, i2 as u32);
            proof {
                let dm = fs.disk();
                lemma_bitmap_region_same(db, dx, dm, fs0.data_area_blocks(), fs0.total_spec());
                assert(ino_size(dm, b, o) == ino_size(d0, b, o)) by {
                    assert(dm[b][o] == d0[b][o]);
                    assert(dm[b][o + 1] == d0[b][o + 1]);
                    assert(dm[b][o + 2] == d0[b][o + 2]);
                    assert(dm[b][o + 3] == d0[b][o + 3]);
                };
                assert(ino_type(dm, b, o) == ino_type(d0, b, o)) by {
                    assert(dm[b][o + 124] == d0[b][o + 124]);
                    assert(dm[b][o + 125] == d0[b][o + 125]);
                    assert(dm[b][o + 126] == d0[b][o + 126]);
                    assert(dm[b][o + 127] == d0[b][o + 127]);
                };
                assert(ino_ind1(dm, b, o) == ino_ind1(d0, b, o)) by {
                    assert(dm[b][o + 116] == d0[b][o + 116]);
                    assert(dm[b][o + 117] == d0[b][o + 117]);
                    assert(dm[b][o + 118] == d0[b][o + 118]);
                    assert(dm[b][o + 119] == d0[b][o + 119]);
                };
                assert forall|i: int| 0 <= i < 28 implies #[trigger] ino_direct(dm, b, o, i)
                    == ino_direct(d0, b, o, i) by {
                    assert(dm[b][o + 4 + 4 * i] == d0[b][o + 4 + 4 * i]);
                    assert(dm[b][o + 4 + 4 * i + 1] == d0[b][o + 4 + 4 * i + 1]);
                    assert(dm[b][o + 4 + 4 * i + 2] == d0[b][o + 4 + 4 * i + 2]);
                    assert(dm[b][o + 4 + 4 * i + 3] == d0[b][o + 4 + 4 * i + 3]);
                };
                assert forall|i: int| 0 <= i < n implies #[trigger] nth_block(dm, b, o, i)
                    == nth_block(d0, b, o, i) by {
                    assert(owned_block(d0, b, o, n as int, i) == nth_block(d0, b, o, i));
                    let v = nth_block(d0, b, o, i);
                    assert(dm[v] == d0[v]);
                    if 28 <= i {
                        let i1 = ino_ind1(d0, b, o);
                        assert(owned_block(d0, b, o, n as int, n as int) == i1);
                        assert(dm[i1] == d0[i1]);
                    }
                };
                assert forall|i: int| 0 <= i < n implies (#[trigger] dm[nth_block(d0, b, o, i)])
                    == d0[nth_block(d0, b, o, i)] by {
                    assert(owned_block(d0, b, o, n as int, i) == nth_block(d0, b, o, i));
                };
                assert(owned_count(n as int) == n + 1);
                assert forall|t: int| 0 <= t < n + 1 implies #[trigger] owned_block(
                    dm,
                    b,
                    o,
                    n as int,
                    t,
                ) == owned_block(d0, b, o, n as int, t) by {
                    if t < n {
                    } else {
                        assert(owned_block(dm, b, o, n as int, t) == ino_ind1(dm, b, o));
                    }
                };
                assert(fs.inode_ok(dm, b, o, n as int));
                assert(forall|i: int|
                    0 <= i < n ==> #[trigger] nth_block(fs.disk(), self.b(), self.o(), i)
                        == nth_block(old(fs).disk(), self.b(), self.o(), i));
            }
            i2 as u32
        } else {
            proof {
                assert(owned_block(d0, b, o, n as int, n + 1) == ino_ind2(d0, b, o));
            }
            let r = read_u32(&mut fs.cache, self.block_id, self.block_offset + 120);
            proof {
                assert(fs.disk() == d0);
                assert(forall|i: int|
                    0 <= i < n ==> #[trigger] nth_block(fs.disk(), b, o, i) == nth_block(
                        d0,
                        b,
                        o,
                        i,
                    ));
            }
            r
        }
    }

    /// Install the indirect-1 group block that data-block index `n`
    /// needs under the indirect-2 tier; everything else keeps its value.
    #[verifier::rlimit(100)]
    fn install_group(&self, fs: &mut EasyFileSystem, n: u32, ind2: u32) -> (grp: u32)
        requires
            156 <= n < crate::layout::MAX_DATA_BLOCKS,
            old(fs).wf(),
            old(fs).inode_ok(old(fs).disk(), self.b(), self.o(), n as int),
            ino_ind2(old(fs).disk(), self.b(), self.o()) == ind2,
            old(fs).data_area_start_block <= ind2 < old(fs).total_spec(),
            n == 156 ==> (forall|t: int|
                0 <= t < owned_count(n as int) ==> #[trigger] owned_block(
                    old(fs).disk(),
                    self.b(),
                    self.o(),
                    n as int,
                    t,
                ) != ind2),
            (n as int - 156) % 128 == 0 ==> old(fs).data_bitmap.free_below(
                old(fs).disk(),
                old(fs).data_area_blocks(),
            ) >= 1,
        ensures
            final(fs).wf(),
            final(fs).same_layout(*old(fs)),
            final(fs).inode_ok(final(fs).disk(), self.b(), self.o(), n as int),
            ind_entry(final(fs).disk(), ind2 as int, (n as int - 156) / 128) == grp,
            old(fs).data_area_start_block <= grp < old(fs).total_spec(),
            final(fs).data_bitmap.spec_bit(
                final(fs).disk(),
                grp - old(fs).data_area_start_block,
            ),
            (n as int - 156) % 128 != 0 ==> final(fs).disk() == old(fs).disk() && grp == ind_entry(
                old(fs).disk(),
                ind2 as int,
                (n as int - 156) / 128,
            ),
            (n as int - 156) % 128 == 0 ==> !old(fs).data_bitmap.spec_bit(
                old(fs).disk(),
                grp - old(fs).data_area_start_block,
            ),
            forall|i: int|
                0 <= i < n ==> #[trigger] nth_block(final(fs).disk(), self.b(), self.o(), i)
                    == nth_block(old(fs).disk(), self.b(), self.o(), i),
            ino_size(final(fs).disk(), self.b(), self.o()) == ino_size(
                old(fs).disk(),
                self.b(),
                self.o(),
            ),
            ino_type(final(fs).disk(), self.b(), self.o()) == ino_type(
                old(fs).disk(),
                self.b(),
                self.o(),
            ),
            ino_ind1(final(fs).disk(), self.b(), self.o()) == ino_ind1(
                old(fs).disk(),
                self.b(),
                self.o(),
            ),
            ino_ind2(final(fs).disk(), self.b(), self.o()) == ind2,
            forall|i: int|
                0 <= i < 28 ==> #[trigger] ino_direct(final(fs).disk(), self.b(), self.o(), i)
                    == ino_direct(old(fs).disk(), self.b(), self.o(), i),
            forall|gi: int|
                0 <= gi < (n as int - 156) / 128 ==> #[trigger] ind_entry(
                    final(fs).disk(),
                    ind2 as int,
                    gi,
                ) == ind_entry(old(fs).disk(), ind2 as int, gi),
            forall|j: int|
                0 <= j < old(fs).data_bitmap.blocks * 4096 && old(fs).data_bitmap.spec_bit(
                    old(fs).disk(),
                    j,
                ) ==> #[trigger] final(fs).data_bitmap.spec_bit(final(fs).disk(), j),
            final(fs).data_bitmap.free_below(final(fs).disk(), final(fs).data_area_blocks())
                == old(fs).data_bitmap.free_below(old(fs).disk(), old(fs).data_area_blocks())
                - if (n as int - 156) % 128 == 0 {
                1int
            } else {
                0int
            },
            forall|bb: int|
                0 <= bb < old(fs).total_spec() && bb != ind2 && !(
                old(fs).data_bitmap.start_block_id <= bb < old(fs).data_area_start_block) ==> (
                #[trigger] final(fs).disk()[bb]) == old(fs).disk()[bb],
    {
        let ghost b = self.b();
        let ghost o = self.o();
        let ghost d0 = fs.disk();
        let ghost fs0 = *old(fs);
        let ghost ds = fs0.data_area_start_block as int;
        let ghost db = fs0.data_bitmap;
        let g = (n as usize - 156) / 128;
        let k = (n as usize - 156) % 128;
        proof {
            lemma_group_arith(n as int, g as int, k as int);
            assert(owned_count(n as int) == if n > 156 {
                n + 2 + crate::efs::groups_for(n as int)
            } else {
                n + 1
            });
        }
        if k == 0 {
            let gb = fs.alloc_data();
            let ghost dx = fs.disk();
            write_u32(&mut fs.cache, ind2 as usize, 4 * g, gb as u32);
            proof {
                let dg = fs.disk();
                lemma_bitmap_region_same(db, dx, dg, fs0.data_area_blocks(), fs0.total_spec());
                assert(ind2 != b);
                assert(dg[b] == d0[b]);
                assert forall|i: int|
                    #![trigger nth_block(dg, b, o, i)]
                    #![trigger dg[nth_block(d0, b, o, i)]]
                    0 <= i < n implies nth_block(dg, b, o, i) == nth_block(d0, b, o, i)
                    && dg[nth_block(d0, b, o, i)] == d0[nth_block(d0, b, o, i)] by {
                    assert(owned_block(d0, b, o, n as int, i) == nth_block(d0, b, o, i));
                    let v = nth_block(d0, b, o, i);
                    assert(v != ind2) by {
                        if n > 156 {
                            assert(owned_block(d0, b, o, n as int, n + 1) == ino_ind2(d0, b, o));
                        }
                    };
                    assert(dg[v] == d0[v]);
                    if 28 <= i && i < 156 {
                        let i1 = ino_ind1(d0, b, o);
                        assert(owned_block(d0, b, o, n as int, n as int) == i1);
                        assert(i1 != ind2) by {
                            if n > 156 {
                                assert(owned_block(d0, b, o, n as int, n + 1) == ino_ind2(
                                    d0,
                                    b,
                                    o,
                                ));
                            }
                        };
                        assert(dg[i1] == d0[i1]);
                    } else if 156 <= i {
                        let gi = (i - 156) / 128;
                        lemma_group_le(n as int, g as int, k as int, i);
                        assert(n > 156);
                        assert(owned_block(d0, b, o, n as int, n + 1) == ino_ind2(d0, b, o));
                        assert(gi < g);
                        let gblk = ind_entry(d0, ind2 as int, gi);
                        assert(owned_block(d0, b, o, n as int, n + 2 + gi) == gblk);
                        assert(gblk != ind2);
                        assert(dg[gblk] == d0[gblk]);
                        assert(ind_entry(dg, ind2 as int, gi) == gblk) by {
                            assert(dg[ind2 as int][4 * gi] == d0[ind2 as int][4 * gi]);
                            assert(dg[ind2 as int][4 * gi + 1] == d0[ind2 as int][4 * gi + 1]);
                            assert(dg[ind2 as int][4 * gi + 2] == d0[ind2 as int][4 * gi + 2]);
                            assert(dg[ind2 as int][4 * gi + 3] == d0[ind2 as int][4 * gi + 3]);
                        };
                    }
                };
                assert forall|gi: int| 0 <= gi < g implies #[trigger] ind_entry(
                    dg,
                    ind2 as int,
                    gi,
                ) == ind_entry(d0, ind2 as int, gi) by {
                    assert(dg[ind2 as int][4 * gi] == d0[ind2 as int][4 * gi]);
                    assert(dg[ind2 as int][4 * gi + 1] == d0[ind2 as int][4 * gi + 1]);
                    assert(dg[ind2 as int][4 * gi + 2] == d0[ind2 as int][4 * gi + 2]);
                    assert(dg[ind2 as int][4 * gi + 3] == d0[ind2 as int][4 * gi + 3]);
                };
                assert forall|t: int| 0 <= t < owned_count(n as int) implies #[trigger] owned_block(
                    dg,
                    b,
                    o,
                    n as int,
                    t,
                ) == owned_block(d0, b, o, n as int, t) by {
                    if t < n {
                    } else if t == n {
                        assert(owned_block(dg, b, o, n as int, t) == ino_ind1(dg, b, o));
                    } else if t == n + 1 {
                        assert(owned_block(dg, b, o, n as int, t) == ino_ind2(dg, b, o));
                    } else {
                        assert(owned_block(dg, b, o, n as int, t) == ind_entry(
                            dg,
                            ind2 as int,
                            t - n - 2,
                        ));
                        assert(t - n - 2 < crate::efs::groups_for(n as int));
                    }
                };
                assert(fs.inode_ok(dg, b, o, n as int));
            }
            gb as u32
        } else {
            proof {
                assert(n > 156);
                assert(owned_block(d0, b, o, n as int, n + 2 + g) == ind_entry(
                    d0,
                    ind2 as int,
                    g as int,
                ));
            }
            let r = read_u32(&mut fs.cache, ind2 as usize, 4 * g);
            proof {
                assert(fs.disk() == d0);
                assert(forall|i: int|
                    0 <= i < n ==> #[trigger] nth_block(fs.disk(), b, o, i) == nth_block(
                        d0,
                        b,
                        o,
                        i,
                    ));
            }
            r
        }
    }

    /// One tier of `append_block`.
    #[verifier::rlimit(100)]
    fn append_high(&self, fs: &mut EasyFileSystem, n: u32)
        requires
            156 <= n,
            old(fs).wf(),
            old(fs).inode_ok(old(fs).disk(), self.b(), self.o(), n as int),
            n < crate::layout::MAX_DATA_BLOCKS,
            old(fs).data_bitmap.free_below(old(fs).disk(), old(fs).data_area_blocks())
                >= owned_count(n + 1) - owned_count(n as int),
        ensures
            final(fs).wf(),
            final(fs).same_layout(*old(fs)),
            final(fs).inode_ok(final(fs).disk(), self.b(), self.o(), n + 1),
            forall|i: int|
                0 <= i < n ==> #[trigger] nth_block(final(fs).disk(), self.b(), self.o(), i)
                    == nth_block(old(fs).disk(), self.b(), self.o(), i),
            forall|i: int|
                0 <= i < n ==> (#[trigger] final(fs).disk()[nth_block(
                    old(fs).disk(),
                    self.b(),
                    self.o(),
                    i,
                )]) == old(fs).disk()[nth_block(old(fs).disk(), self.b(), self.o(), i)],
            ino_size(final(fs).disk(), self.b(), self.o()) == ino_size(
                old(fs).disk(),
                self.b(),
                self.o(),
            ),
            ino_type(final(fs).disk(), self.b(), self.o()) == ino_type(
                old(fs).disk(),
                self.b(),
                self.o(),
            ),
            final(fs).data_bitmap.free_below(final(fs).disk(), final(fs).data_area_blocks())
                == old(fs).data_bitmap.free_below(old(fs).disk(), old(fs).data_area_blocks()) - (
            owned_count(n + 1) - owned_count(n as int)),
            forall|bb: int|
                0 <= bb < old(fs).data_bitmap.start_block_id && bb != self.b() ==> (
                #[trigger] final(fs).disk()[bb]) == old(fs).disk()[bb],
            forall|y: int|
                0 <= y < 512 && !(self.o() + 4 <= y < self.o() + 124) ==> (#[trigger] final(fs).disk()[self.b()][y]) == old(fs).disk()[self.b()][y],
    {
        let ghost b = self.b();
        let ghost o = self.o();
        let ghost d0 = fs.disk();
        let ghost fs0 = *old(fs);
        let ghost ds = fs0.data_area_start_block as int;
        let ghost db = fs0.data_bitmap;
        let ghost total = fs0.total_spec();
        let ghost da = fs0.data_area_blocks();
        let g = (n as usize - 156) / 128;
        let k = (n as usize - 156) % 128;
        proof {
            lemma_group_arith(n as int, g as int, k as int);
            assert(owned_count(n as int) == if n > 156 {
                n + 2 + crate::efs::groups_for(n as int)
            } else {
                n + 1
            });
            assert(owned_count(n + 1) == n + g + 4);
        }
        let ind2 = self.install_ind2(fs, n);
        let ghost fsm = *fs;
        let ghost dm = fs.disk();
        proof {
            if n == 156 {
                assert forall|t: int| 0 <= t < owned_count(n as int) implies #[trigger]
                    owned_block(dm, b, o, n as int, t) != ind2 by {
                    assert(owned_block(dm, b, o, n as int, t) == if t < n {
                        nth_block(dm, b, o, t)
                    } else {
                        ino_ind1(dm, b, o)
                    });
                    assert(owned_block(d0, b, o, n as int, t) == owned_block(
                        dm,
                        b,
                        o,
                        n as int,
                        t,
                    )) by {
                        if t < n {
                        } else {
                            assert(owned_block(d0, b, o, n as int, t) == ino_ind1(d0, b, o));
                        }
                    };
                    assert(db.spec_bit(d0, owned_block(d0, b, o, n as int, t) - ds));
                    assert(!db.spec_bit(d0, ind2 - ds));
                };
            }
        }
        let grp = self.install_group(fs, n, ind2);
        let ghost fsg = *fs;
        let ghost dg = fs.disk();
        let blk = fs.alloc_data();
        let ghost dab = fs.disk();
        write_u32(&mut fs.cache, grp as usize, 4 * k, blk as u32);
        proof {
            let d2 = fs.disk();
            let nn = n as int;
            let gg = g as int;
            let kk = k as int;
            let ind2i = ind2 as int;
            let grpi = grp as int;
            let blki = blk as int;
            lemma_bitmap_region_same(db, dab, d2, da, total);
            // freshness, phrased over the owned family values
            assert forall|t: int| 0 <= t < owned_count(nn) implies #[trigger] owned_block(
                dg,
                b,
                o,
                nn,
                t,
            ) != blki && db.spec_bit(d2, owned_block(dg, b, o, nn, t) - ds) by {
                assert(db.spec_bit(dg, owned_block(dg, b, o, nn, t) - ds));
                assert(!db.spec_bit(dg, blki - ds));
            };
            assert(db.spec_bit(dg, ind2i - ds) && db.spec_bit(dg, grpi - ds));
            assert(blki != ind2i && blki != grpi);
            assert(db.spec_bit(d2, ind2i - ds) && db.spec_bit(d2, grpi - ds));
            assert(db.spec_bit(d2, blki - ds));
            assert(grpi != ind2i && grpi != b && ind2i != b) by {
                if kk == 0 {
                    assert(db.spec_bit(dm, ind2i - ds));
                    assert(!db.spec_bit(dm, grpi - ds));
                } else {
                    assert(owned_block(dm, b, o, nn, nn + 1) == ino_ind2(dm, b, o));
                    assert(owned_block(dm, b, o, nn, nn + 2 + gg) == ind_entry(dm, ind2i, gg));
                }
            };
            assert(kk == 0 ==> forall|t: int|
                0 <= t < owned_count(nn) ==> #[trigger] owned_block(dg, b, o, nn, t) != grpi) by {
                if kk == 0 {
                    assert forall|t: int| 0 <= t < owned_count(nn) implies #[trigger] owned_block(
                        dg,
                        b,
                        o,
                        nn,
                        t,
                    ) != grpi by {
                        assert(owned_block(dg, b, o, nn, t) == owned_block(dm, b, o, nn, t)) by {
                            if t < nn {
                                assert(nth_block(dg, b, o, t) == nth_block(dm, b, o, t));
                            } else if t == nn {
                                assert(owned_block(dg, b, o, nn, t) == ino_ind1(dg, b, o));
                            } else if t == nn + 1 {
                                assert(owned_block(dg, b, o, nn, t) == ino_ind2(dg, b, o));
                            } else {
                                assert(owned_block(dg, b, o, nn, t) == ind_entry(
                                    dg,
                                    ind2i,
                                    t - nn - 2,
                                ));
                                assert(t - nn - 2 < crate::efs::groups_for(nn));
                                assert(ind_entry(dg, ind2i, t - nn - 2) == ind_entry(
                                    dm,
                                    ind2i,
                                    t - nn - 2,
                                ));
                                assert(owned_block(dm, b, o, nn, t) == ind_entry(
                                    dm,
                                    ind2i,
                                    t - nn - 2,
                                ));
                            }
                        };
                        assert(db.spec_bit(dm, owned_block(dm, b, o, nn, t) - ds));
                        assert(!db.spec_bit(dm, grpi - ds));
                    };
                }
            };
            assert(nn == 156 ==> forall|t: int|
                0 <= t < owned_count(nn) ==> #[trigger] owned_block(dg, b, o, nn, t) != ind2i) by {
                if nn == 156 {
                    assert forall|t: int| 0 <= t < owned_count(nn) implies #[trigger] owned_block(
                        dg,
                        b,
                        o,
                        nn,
                        t,
                    ) != ind2i by {
                        assert(owned_block(dg, b, o, nn, t) == owned_block(dm, b, o, nn, t)) by {
                            if t < nn {
                                assert(nth_block(dg, b, o, t) == nth_block(dm, b, o, t));
                            } else {
                                assert(owned_block(dg, b, o, nn, t) == ino_ind1(dg, b, o));
                                assert(owned_block(dm, b, o, nn, t) == ino_ind1(dm, b, o));
                            }
                        };
                        assert(owned_block(dm, b, o, nn, t) != ind2i);
                    };
                }
            };
            // inode metadata words survive the final write
            assert(dab[b] == dg[b]);
            assert(d2[b] == dab[b]);
            assert(dab[ind2i] == dg[ind2i]);
            assert(d2[ind2i] == dab[ind2i]);
            assert(d2[b] == dg[b] && d2[ind2i] == dg[ind2i]);
            assert(ino_ind2(d2, b, o) == ind2i);
            assert(ino_ind1(d2, b, o) == ino_ind1(dg, b, o));
            assert(ino_size(d2, b, o) == ino_size(dg, b, o));
            assert(ino_type(d2, b, o) == ino_type(dg, b, o));
            assert(forall|i: int|
                0 <= i < 28 ==> #[trigger] ino_direct(d2, b, o, i) == ino_direct(dg, b, o, i));
            assert(ind_entry(d2, ind2i, gg) == grpi);
            assert forall|gi: int| 0 <= gi < gg implies #[trigger] ind_entry(d2, ind2i, gi)
                == ind_entry(dg, ind2i, gi) by {
                assert(d2[ind2i] == dg[ind2i]);
            };
            assert(ind_entry(d2, grpi, kk) == blki);
            assert forall|ki: int| 0 <= ki < kk implies #[trigger] ind_entry(d2, grpi, ki)
                == ind_entry(dg, grpi, ki) by {
                assert(kk > 0);
                assert(dab[grpi] == dg[grpi]);
                assert(d2[grpi][4 * ki] == dab[grpi][4 * ki]);
                assert(d2[grpi][4 * ki + 1] == dab[grpi][4 * ki + 1]);
                assert(d2[grpi][4 * ki + 2] == dab[grpi][4 * ki + 2]);
                assert(d2[grpi][4 * ki + 3] == dab[grpi][4 * ki + 3]);
            };
            // every data-area block outside the written set is untouched
            assert(forall|bb: int|
                ds <= bb < total && bb != ind2i && bb != grpi ==> (#[trigger] d2[bb]) == dg[bb]);
            assert forall|i: int|
                #![trigger nth_block(d2, b, o, i)]
                #![trigger d2[nth_block(dg, b, o, i)]]
                0 <= i < nn implies nth_block(d2, b, o, i) == nth_block(dg, b, o, i)
                && d2[nth_block(dg, b, o, i)] == dg[nth_block(dg, b, o, i)] by {
                lemma_high_preserve(ds, total, dg, d2, b, o, nn, gg, kk, ind2i, grpi, i);
            };
            // classify the new owned family position by position
            assert(nth_block(d2, b, o, nn) == blki);
            assert forall|t: int| 0 <= t < nn implies #[trigger] owned_block(d2, b, o, nn + 1, t)
                == owned_block(dg, b, o, nn, t) by {
                assert(nth_block(d2, b, o, t) == nth_block(dg, b, o, t));
            };
            assert(owned_block(d2, b, o, nn + 1, nn) == blki);
            assert(owned_block(d2, b, o, nn + 1, nn + 1) == owned_block(dg, b, o, nn, nn));
            assert(owned_block(d2, b, o, nn + 1, nn + 2) == ind2i);
            assert(nn > 156 ==> ind2i == owned_block(dg, b, o, nn, nn + 1));
            assert(kk > 0 ==> grpi == owned_block(dg, b, o, nn, nn + 2 + gg)) by {
                if kk > 0 {
                    assert(owned_block(dg, b, o, nn, nn + 2 + gg) == ind_entry(dg, ind2i, gg));
                }
            };
            assert forall|t: int| nn + 2 < t < nn + 3 + gg implies #[trigger] owned_block(
                d2,
                b,
                o,
                nn + 1,
                t,
            ) == owned_block(dg, b, o, nn, t - 1) by {
                assert(owned_block(d2, b, o, nn + 1, t) == ind_entry(d2, ind2i, t - nn - 3));
                assert(ind_entry(d2, ind2i, t - nn - 3) == ind_entry(dg, ind2i, t - nn - 3));
                assert(nn > 156) by {
                    if nn == 156 {
                        assert(gg == 0);
                    }
                };
                assert(owned_block(dg, b, o, nn, t - 1) == ind_entry(dg, ind2i, t - nn - 3));
            };
            assert(owned_block(d2, b, o, nn + 1, nn + 3 + gg) == ind_entry(d2, ind2i, gg));
            lemma_high_family(
                db,
                ds,
                total,
                dg,
                d2,
                b,
                o,
                nn,
                gg,
                kk,
                ind2i,
                grpi,
                blki,
            );
            assert(fs.inode_ok(d2, b, o, nn + 1));
            // stitch everything back to the state before the helpers ran
            assert forall|i: int|
                #![trigger nth_block(d2, b, o, i)]
                0 <= i < nn implies nth_block(d2, b, o, i) == nth_block(d0, b, o, i) by {
                assert(nth_block(dg, b, o, i) == nth_block(dm, b, o, i));
                assert(nth_block(dm, b, o, i) == nth_block(d0, b, o, i));
            };
            assert forall|i: int|
                #![trigger d2[nth_block(d0, b, o, i)]]
                0 <= i < nn implies d2[nth_block(d0, b, o, i)] == d0[nth_block(d0, b, o, i)] by {
                assert(nth_block(dg, b, o, i) == nth_block(d0, b, o, i));
                let v = nth_block(d0, b, o, i);
                assert(d2[v] == dg[v]);
                assert(db.spec_bit(d0, v - ds)) by {
                    assert(owned_block(d0, b, o, nn, i) == v);
                };
                assert(ds <= v < total) by {
                    assert(owned_block(d0, b, o, nn, i) == v);
                };
                assert(dg[v] == dm[v]) by {
                    if v == ind2i {
                        assert(nn == 156 ==> owned_block(dm, b, o, nn, i) != ind2i);
                        assert(nn > 156 ==> owned_block(dm, b, o, nn, nn + 1) == ino_ind2(
                            dm,
                            b,
                            o,
                        ));
                        assert(owned_block(dm, b, o, nn, i) == nth_block(dm, b, o, i));
                        assert(nth_block(dm, b, o, i) == v);
                    }
                };
                assert(dm[v] == d0[v]);
            };
            assert(db.free_below(d2, da) == db.free_below(dab, da));
            assert(owned_count(nn + 1) == nn + gg + 4);
            assert(db.free_below(d2, da) == db.free_below(d0, da) - (owned_count(nn + 1)
                - owned_count(nn)));
        }
    }

    /// Append one data block at index `n`, allocating the indirect
    /// blocks the new index needs.  The first `n` data blocks, the size
    /// and the type keep their values; the data blocks' contents are
    /// untouched; set data-bitmap bits stay set.
    fn append_block(&self, fs: &mut EasyFileSystem, n: u32)
        requires
            old(fs).wf(),
            old(fs).inode_ok(old(fs).disk(), self.b(), self.o(), n as int),
            n < crate::layout::MAX_DATA_BLOCKS,
            old(fs).data_bitmap.free_below(old(fs).disk(), old(fs).data_area_blocks())
                >= owned_count(n + 1) - owned_count(n as int),
        ensures
            final(fs).wf(),
            final(fs).same_layout(*old(fs)),
            final(fs).inode_ok(final(fs).disk(), self.b(), self.o(), n + 1),
            forall|i: int|
                0 <= i < n ==> #[trigger] nth_block(final(fs).disk(), self.b(), self.o(), i)
                    == nth_block(old(fs).disk(), self.b(), self.o(), i),
            forall|i: int|
                0 <= i < n ==> (#[trigger] final(fs).disk()[nth_block(
                    old(fs).disk(),
                    self.b(),
                    self.o(),
                    i,
                )]) == old(fs).disk()[nth_block(old(fs).disk(), self.b(), self.o(), i)],
            ino_size(final(fs).disk(), self.b(), self.o()) == ino_size(
                old(fs).disk(),
                self.b(),
                self.o(),
            ),
            ino_type(final(fs).disk(), self.b(), self.o()) == ino_type(
                old(fs).disk(),
                self.b(),
                self.o(),
            ),
            final(fs).data_bitmap.free_below(final(fs).disk(), final(fs).data_area_blocks())
                == old(fs).data_bitmap.free_below(old(fs).disk(), old(fs).data_area_blocks()) - (
            owned_count(n + 1) - owned_count(n as int)),
            forall|bb: int|
                0 <= bb < old(fs).data_bitmap.start_block_id && bb != self.b() ==> (
                #[trigger] final(fs).disk()[bb]) == old(fs).disk()[bb],
            forall|y: int|
                0 <= y < 512 && !(self.o() + 4 <= y < self.o() + 124) ==> (#[trigger] final(fs).disk()[self.b()][y]) == old(fs).disk()[self.b()][y],
    {
        if n < 28 {
            self.append_direct(fs, n);
        } else if n < 156 {
            self.append_mid(fs, n);
        } else {
            self.append_high(fs, n);
        }
    }


    /// Grow the file so that its size is the larger of the old size
    /// and `end`; existing bytes keep their values.
    #[verifier::rlimit(100)]
    fn grow_to(&self, fs: &mut EasyFileSystem, end: usize) -> (r: usize)
        requires
            old(fs).wf(),
            self.ok(*old(fs)),
            end <= MAX_FILE_SIZE,
            self.spec_size(*old(fs)) <= end,
            old(fs).data_bitmap.free_below(old(fs).disk(), old(fs).data_area_blocks())
                >= owned_count(blocks_for(end as int)) - owned_count(
                blocks_for(self.spec_size(*old(fs))),
            ),
        ensures
            final(fs).wf(),
            final(fs).same_layout(*old(fs)),
            self.ok(*final(fs)),
            self.spec_size(*final(fs)) == end,
            r == self.spec_size(*old(fs)),
            forall|j: int|
                0 <= j < self.spec_size(*old(fs)) ==> #[trigger] self.contents(*final(fs))[j]
                    == self.contents(*old(fs))[j],
            ino_type(final(fs).disk(), self.b(), self.o()) == ino_type(
                old(fs).disk(),
                self.b(),
                self.o(),
            ),
            final(fs).data_bitmap.free_below(final(fs).disk(), final(fs).data_area_blocks())
                == old(fs).data_bitmap.free_below(old(fs).disk(), old(fs).data_area_blocks()) - (
            owned_count(blocks_for(end as int)) - owned_count(
                blocks_for(self.spec_size(*old(fs))),
            )),
            forall|bb: int|
                0 <= bb < old(fs).data_bitmap.start_block_id && bb != self.b() ==> (
                #[trigger] final(fs).disk()[bb]) == old(fs).disk()[bb],
    {
        let ghost b = self.b();
        let ghost o = self.o();
        let ghost fs0 = *old(fs);
        let ghost d0 = fs0.disk();
        let ghost ds = fs0.data_area_start_block as int;
        let ghost dbs = fs0.data_bitmap.start_block_id as int;
        let ghost da = fs0.data_area_blocks();
        let ghost free0 = fs0.data_bitmap.free_below(d0, da);
        let size0 = self.size(fs) as usize;
        let ghost n0 = blocks_for(size0 as int);
        let target: usize = (end + 511) / 512;
        let mut cnt: usize = (size0 + 511) / 512;
        proof {
            assert(target <= crate::layout::MAX_DATA_BLOCKS) by (nonlinear_arith)
                requires
                    end <= MAX_FILE_SIZE,
                    MAX_FILE_SIZE == crate::layout::MAX_DATA_BLOCKS * 512,
                    target == (end + 511) / 512,
            ;
            lemma_owned_count_mono(n0, target as int);
        }
        while cnt < target
            invariant
                fs.wf(),
                fs.same_layout(fs0),
                fs0 == *old(fs),
                d0 == fs0.disk(),
                b == self.b() && o == self.o(),
                ds == fs0.data_area_start_block && dbs == fs0.data_bitmap.start_block_id,
                da == fs0.data_area_blocks(),
                free0 == fs0.data_bitmap.free_below(d0, da),
                n0 == blocks_for(size0 as int),
                n0 <= cnt <= target,
                target <= crate::layout::MAX_DATA_BLOCKS,
                target == (end + 511) / 512,
                size0 <= end <= MAX_FILE_SIZE,
                size0 == self.spec_size(fs0),
                free0 >= owned_count(target as int) - owned_count(n0),
                fs.inode_ok(fs.disk(), b, o, cnt as int),
                ino_size(fs.disk(), b, o) == size0,
                ino_type(fs.disk(), b, o) == ino_type(d0, b, o),
                forall|i: int|
                    0 <= i < n0 ==> #[trigger] nth_block(fs.disk(), b, o, i) == nth_block(
                        d0,
                        b,
                        o,
                        i,
                    ),
                forall|i: int|
                    0 <= i < n0 ==> (#[trigger] fs.disk()[nth_block(d0, b, o, i)]) == d0[nth_block(
                        d0,
                        b,
                        o,
                        i,
                    )],
                fs.data_bitmap.free_below(fs.disk(), da) == free0 - (owned_count(cnt as int)
                    - owned_count(n0)),
                forall|bb: int|
                    0 <= bb < dbs && bb != b ==> (#[trigger] fs.disk()[bb]) == d0[bb],
            decreases target - cnt,
        {
            proof {
                lemma_owned_count_mono(cnt as int, cnt + 1);
                lemma_owned_count_mono(cnt + 1, target as int);
                lemma_owned_count_mono(n0, cnt as int);
            }
            let ghost pre = *fs;
            self.append_block(fs, cnt as u32);
            proof {
                assert(forall|i: int|
                    0 <= i < n0 ==> #[trigger] nth_block(fs.disk(), b, o, i) == nth_block(
                        pre.disk(),
                        b,
                        o,
                        i,
                    ));
                assert forall|i: int| 0 <= i < n0 implies (#[trigger] fs.disk()[nth_block(
                    d0,
                    b,
                    o,
                    i,
                )]) == d0[nth_block(d0, b, o, i)] by {
                    assert(nth_block(pre.disk(), b, o, i) == nth_block(d0, b, o, i));
                    assert(fs.disk()[nth_block(pre.disk(), b, o, i)] == pre.disk()[nth_block(
                        pre.disk(),
                        b,
                        o,
                        i,
                    )]);
                };
            }
            cnt = cnt + 1;
        }
        let ghost fsg0 = *fs;
        if end > size0 {
            self.set_size(fs, end as u32);
            proof {
                let dpre = fsg0.disk();
                let d = fs.disk();
                assert(fs.inode_ok(dpre, b, o, target as int));
                assert forall|t: int| 0 <= t < owned_count(target as int) implies
                    #[trigger] owned_block(dpre, b, o, target as int, t) != b
                        && 0 <= owned_block(dpre, b, o, target as int, t) < fs0.total_spec() by {
                    assert(ds <= owned_block(dpre, b, o, target as int, t) < fs.total_spec());
                };
                lemma_size_write(dpre, d, fs0.total_spec(), b, o, target as int);
                lemma_bitmap_region_same(
                    fs0.data_bitmap,
                    dpre,
                    d,
                    fs0.data_area_blocks(),
                    fs0.total_spec(),
                );
                assert(fs.inode_ok(fs.disk(), b, o, target as int));
            }
        }
        proof {
            assert(blocks_for(end as int) == target) by (nonlinear_arith)
                requires
                    target == (end + 511) / 512,
            ;
            assert(ino_size(fs.disk(), b, o) == end);
            assert(fs.inode_ok(fs.disk(), b, o, blocks_for(end as int)));
        }
        proof {
            assert forall|j: int| 0 <= j < size0 implies #[trigger] self.contents(*fs)[j]
                == self.contents(fs0)[j] by {
                let jn = j / 512;
                assert(0 <= jn < n0) by (nonlinear_arith)
                    requires
                        0 <= j < size0,
                        jn == j / 512,
                        n0 == blocks_for(size0 as int),
                ;
                assert(nth_block(fsg0.disk(), b, o, jn) == nth_block(d0, b, o, jn));
                assert(nth_block(fs.disk(), b, o, jn) == nth_block(fsg0.disk(), b, o, jn)) by {
                    if end > size0 {
                    } else {
                        assert(*fs == fsg0);
                    }
                };
                assert(fs.disk()[nth_block(d0, b, o, jn)] == d0[nth_block(d0, b, o, jn)]) by {
                    assert(ds <= nth_block(d0, b, o, jn)) by {
                        assert(owned_block(d0, b, o, n0, jn) == nth_block(d0, b, o, jn));
                    };
                    assert(fsg0.disk()[nth_block(d0, b, o, jn)] == d0[nth_block(d0, b, o, jn)]);
                };
            };
        }
        size0
    }

    /// Write `buf` at `offset`, growing the file as needed: afterwards
    /// the file holds exactly `buf` at that range, every other byte
    /// below the old size keeps its value, and the size is the larger
    /// of the old size and the end of the write.
    #[verifier::rlimit(100)]
    pub fn write_at(&self, fs: &mut EasyFileSystem, offset: usize, buf: &[u8]) -> (r: usize)
        requires
            old(fs).wf(),
            self.ok(*old(fs)),
            offset + buf@.len() <= MAX_FILE_SIZE,
            old(fs).data_bitmap.free_below(old(fs).disk(), old(fs).data_area_blocks())
                >= owned_count(
                blocks_for(
                    if offset + buf@.len() >= self.spec_size(*old(fs)) {
                        offset + buf@.len()
                    } else {
                        self.spec_size(*old(fs))
                    },
                ),
            ) - owned_count(blocks_for(self.spec_size(*old(fs)))),
        ensures
            final(fs).wf(),
            final(fs).same_layout(*old(fs)),
            self.ok(*final(fs)),
            r == buf@.len(),
            self.spec_size(*final(fs)) == if offset + buf@.len() >= self.spec_size(*old(fs)) {
                offset + buf@.len()
            } else {
                self.spec_size(*old(fs))
            },
            forall|j: int|
                offset <= j < offset + buf@.len() ==> #[trigger] self.contents(*final(fs))[j]
                    == buf@[j - offset],
            forall|j: int|
                0 <= j < self.spec_size(*old(fs)) && !(offset <= j < offset + buf@.len())
                    ==> #[trigger] self.contents(*final(fs))[j] == self.contents(*old(fs))[j],
            ino_type(final(fs).disk(), self.b(), self.o()) == ino_type(
                old(fs).disk(),
                self.b(),
                self.o(),
            ),
            forall|bb: int|
                0 <= bb < old(fs).data_bitmap.start_block_id && bb != self.b() ==> (
                #[trigger] final(fs).disk()[bb]) == old(fs).disk()[bb],
            // exactly the owed blocks are taken from the data bitmap
            final(fs).data_bitmap.free_below(final(fs).disk(), final(fs).data_area_blocks())
                == old(fs).data_bitmap.free_below(old(fs).disk(), old(fs).data_area_blocks()) - (
            owned_count(
                blocks_for(
                    if offset + buf@.len() >= self.spec_size(*old(fs)) {
                        offset + buf@.len()
                    } else {
                        self.spec_size(*old(fs))
                    },
                ),
            ) - owned_count(blocks_for(self.spec_size(*old(fs))))),
    {
        let ghost b = self.b();
        let ghost o = self.o();
        let ghost fs0 = *old(fs);
        let ghost d0 = fs0.disk();
        let ghost ds = fs0.data_area_start_block as int;
        let ghost dbs = fs0.data_bitmap.start_block_id as int;
        let s0 = self.size(fs) as usize;
        let end = if offset + buf.len() >= s0 {
            offset + buf.len()
        } else {
            s0
        };
        proof {
            lemma_owned_count_mono(blocks_for(self.spec_size(fs0)), blocks_for(end as int));
        }
        let ghost size0 = self.spec_size(fs0);
        let grow_r = self.grow_to(fs, end);
        let ghost fsg = *fs;
        let ghost dg = fsg.disk();
        proof {
            assert(ino_size(dg, b, o) == end);
        }
        // write the data block by block
        let mut cur = offset;

        while cur < offset + buf.len()
            invariant
                fs.wf(),
                fs.same_layout(fsg),
                fsg.same_layout(fs0),
                fs0 == *old(fs),
                dg == fsg.disk(),
                b == self.b() && o == self.o(),
                ds == fsg.data_area_start_block && dbs == fsg.data_bitmap.start_block_id,
                offset <= cur <= offset + buf@.len(),
                offset + buf@.len() <= end,
                offset + buf@.len() <= MAX_FILE_SIZE,
                end <= MAX_FILE_SIZE,
                ino_size(dg, b, o) == end,
                fs.inode_ok(fs.disk(), b, o, blocks_for(end as int)),
                ino_size(fs.disk(), b, o) == end,
                ino_type(fs.disk(), b, o) == ino_type(dg, b, o),
                forall|i: int|
                    0 <= i < blocks_for(end as int) ==> #[trigger] nth_block(fs.disk(), b, o, i)
                        == nth_block(dg, b, o, i),
                forall|j: int|
                    offset <= j < cur ==> #[trigger] file_bytes(fs.disk(), b, o)[j] == buf@[j
                        - offset],
                forall|j: int|
                    0 <= j < end && !(offset <= j < cur) ==> #[trigger] file_bytes(
                        fs.disk(),
                        b,
                        o,
                    )[j] == file_bytes(dg, b, o)[j],
                fs.data_bitmap.free_below(fs.disk(), fsg.data_area_blocks())
                    == fsg.data_bitmap.free_below(dg, fsg.data_area_blocks()),
                forall|bb: int|
                    0 <= bb < dbs && bb != b ==> (#[trigger] fs.disk()[bb]) == dg[bb],
            decreases offset + buf@.len() - cur,
        {
            let n = cur / 512;
            let boff = cur % 512;
            let mut cnt2 = 512 - boff;
            if cnt2 > offset + buf.len() - cur {
                cnt2 = offset + buf.len() - cur;
            }
            proof {
                assert(n < blocks_for(end as int)) by (nonlinear_arith)
                    requires
                        cur < end,
                        n == cur as int / 512,
                ;
            }
            let blk = self.get_block_id(fs, n as u32);
            let mut chunk: Vec<u8> = Vec::new();
            let mut ci: usize = 0;
            while ci < cnt2
                invariant
                    ci <= cnt2,
                    chunk@.len() == ci,
                    offset <= cur,
                    cur + cnt2 <= offset + buf@.len(),
                    offset + buf@.len() <= MAX_FILE_SIZE,
                    forall|j: int| 0 <= j < ci ==> chunk@[j] == buf@[cur - offset + j],
                decreases cnt2 - ci,
            {
                chunk.push(buf[cur - offset + ci]);
                ci = ci + 1;
            }
            let ghost pre = *fs;
            fs.cache.modify_block_range(blk, boff, &chunk);
            proof {
                let d = fs.disk();
                let dpre = pre.disk();
                let m = blocks_for(end as int);
                assert(cur == n * 512 + boff) by (nonlinear_arith)
                    requires
                        n == cur as int / 512,
                        boff == cur as int % 512,
                ;
                assert(cur + chunk@.len() <= end);
                assert(forall|bb: int|
                    0 <= bb < fsg.total_spec() && bb != blk ==> (#[trigger] d[bb]) == dpre[bb]);
                lemma_data_write(
                    ds,
                    fsg.total_spec(),
                    dpre,
                    d,
                    b,
                    o,
                    m,
                    end as int,
                    blk as int,
                    n as int,
                    boff as int,
                    chunk@,
                    cur as int,
                );
                lemma_bitmap_region_same(
                    fsg.data_bitmap,
                    dpre,
                    d,
                    fsg.data_area_blocks(),
                    fsg.total_spec(),
                );
                assert forall|t: int| 0 <= t < owned_count(m) implies
                    fs.data_area_start_block <= #[trigger] owned_block(d, b, o, m, t)
                        < fs.total_spec() && fs.data_bitmap.spec_bit(
                    d,
                    owned_block(d, b, o, m, t) - fs.data_area_start_block,
                ) by {
                    assert(owned_block(d, b, o, m, t) == owned_block(dpre, b, o, m, t));
                    assert(pre.data_bitmap.spec_bit(
                        dpre,
                        owned_block(dpre, b, o, m, t) - pre.data_area_start_block,
                    ));
                };
                assert(fs.inode_ok(d, b, o, m)) by {
                    assert forall|t1: int, t2: int|
                        #![trigger owned_block(d, b, o, m, t1), owned_block(d, b, o, m, t2)]
                        0 <= t1 < t2 < owned_count(m) implies owned_block(d, b, o, m, t1)
                        != owned_block(d, b, o, m, t2) by {
                        assert(owned_block(d, b, o, m, t1) == owned_block(dpre, b, o, m, t1));
                        assert(owned_block(d, b, o, m, t2) == owned_block(dpre, b, o, m, t2));
                    };
                };
                assert(forall|j: int|
                    offset <= j < cur ==> #[trigger] file_bytes(dpre, b, o)[j] == buf@[j
                        - offset]);
                assert(forall|j: int|
                    0 <= j < end && !(offset <= j < cur) ==> #[trigger] file_bytes(dpre, b, o)[j]
                        == file_bytes(dg, b, o)[j]);
                lemma_write_step(
                    dg,
                    dpre,
                    d,
                    b,
                    o,
                    offset as int,
                    cur as int,
                    cnt2 as int,
                    end as int,
                    buf@,
                    chunk@,
                );
                assert(forall|j: int|
                    offset <= j < cur + cnt2 ==> #[trigger] file_bytes(fs.disk(), b, o)[j]
                        == buf@[j - offset]);
                assert(forall|j: int|
                    0 <= j < end && !(offset <= j < cur + cnt2) ==> #[trigger] file_bytes(
                        fs.disk(),
                        b,
                        o,
                    )[j] == file_bytes(dg, b, o)[j]);
            }
            cur = cur + cnt2;
        }
        proof {
            assert forall|j: int| offset <= j < offset + buf@.len() implies
                #[trigger] self.contents(*fs)[j] == buf@[j - offset] by {
                assert(file_bytes(fs.disk(), b, o)[j] == buf@[j - offset]);
            };
            assert forall|j: int|
                0 <= j < size0 && !(offset <= j < offset + buf@.len()) implies
                #[trigger] self.contents(*fs)[j] == self.contents(fs0)[j] by {
                assert(file_bytes(fs.disk(), b, o)[j] == file_bytes(dg, b, o)[j]);
                assert(self.contents(fsg)[j] == self.contents(fs0)[j]);
            };
        }
        buf.len()
    }

    /// Read up to `len` bytes starting at `offset`: exactly the bytes
    /// of the file from `offset` to the end of file or of the request,
    /// whichever comes first.
    pub fn read_at(&self, fs: &mut EasyFileSystem, offset: usize, len: usize) -> (r: Vec<u8>)
        requires
            old(fs).wf(),
            self.ok(*old(fs)),
            offset + len <= usize::MAX,
        ensures
            final(fs).wf(),
            final(fs).same_layout(*old(fs)),
            final(fs).disk() == old(fs).disk(),
            ({
                let sz = self.spec_size(*old(fs));
                let start = if offset <= sz {
                    offset as int
                } else {
                    sz
                };
                let end = if offset + len <= sz {
                    offset + len
                } else {
                    sz
                };
                r@ == self.contents(*old(fs)).subrange(start, end)
            }),
    {
        let ghost d = fs.disk();
        let size = self.size(fs) as usize;
        let ghost fs0 = *old(fs);
        let end = if offset + len <= size {
            offset + len
        } else {
            size
        };
        let mut r: Vec<u8> = Vec::new();
        if offset >= end {
            proof {
                assert(r@ =~= self.contents(fs0).subrange(
                    if offset <= self.spec_size(fs0) {
                        offset as int
                    } else {
                        self.spec_size(fs0)
                    },
                    if offset + len <= self.spec_size(fs0) {
                        offset + len
                    } else {
                        self.spec_size(fs0)
                    },
                ));
            }
            return r;
        }
        let mut cur = offset;
        while cur < end
            invariant
                fs.wf(),
                self.ok(*fs),
                fs.same_layout(fs0),
                fs.disk() == fs0.disk(),
                fs0 == *old(fs),
                offset <= cur <= end,
                end <= size,
                size == self.spec_size(fs0),
                size <= MAX_FILE_SIZE,
                r@ == self.contents(fs0).subrange(offset as int, cur as int),
            decreases end - cur,
        {
            let n = cur / 512;
            let boff = cur % 512;
            let mut cnt = 512 - boff;
            if cnt > end - cur {
                cnt = end - cur;
            }
            proof {
                assert(n < blocks_for(size as int)) by (nonlinear_arith)
                    requires
                        cur < end,
                        end <= size,
                        n == cur as int / 512,
                ;
            }
            let blk = self.get_block_id(fs, n as u32);
            let chunk = fs.cache.read_block_range(blk, boff, cnt);
            let ghost r_pre = r@;
            let mut i: usize = 0;
            while i < cnt
                invariant
                    i <= cnt,
                    chunk@.len() == cnt,
                    r@ == r_pre + chunk@.subrange(0, i as int),
                decreases cnt - i,
            {
                r.push(chunk[i]);
                proof {
                    assert(r@ =~= r_pre + chunk@.subrange(0, i + 1));
                }
                i = i + 1;
            }
            proof {
                assert(chunk@.subrange(0, cnt as int) =~= chunk@);
                assert forall|j: int| cur <= j < cur + cnt implies self.contents(fs0)[j]
                    == chunk@[j - cur] by {
                    lemma_pos_decomp(n as int, j - n * 512);
                    assert(chunk@[j - cur] == fs0.disk()[blk as int][boff + (j - cur)]);
                };
                assert(r@ =~= self.contents(fs0).subrange(offset as int, cur + cnt));
            }
            cur = cur + cnt;
        }
        proof {
            assert(r@ =~= self.contents(fs0).subrange(
                if offset <= self.spec_size(fs0) {
                    offset as int
                } else {
                    self.spec_size(fs0)
                },
                if offset + len <= self.spec_size(fs0) {
                    offset + len
                } else {
                    self.spec_size(fs0)
                },
            ));
        }
        r
    }
}

/// Law: the bytes a write puts at `offset` are exactly what a read of
/// that range returns afterwards.  `write_at` makes the first
/// hypothesis true of the new contents; `read_at` returns exactly this
/// subrange when it lies below the size.
pub proof fn lemma_write_then_read(contents: Seq<u8>, offset: int, data: Seq<u8>)
    requires
        0 <= offset,
        offset + data.len() <= contents.len(),
        forall|j: int| offset <= j < offset + data.len() ==> contents[j] == data[j - offset],
    ensures
        contents.subrange(offset, offset + data.len()) == data,
{
    assert(contents.subrange(offset, offset + data.len()) =~= data);
}


/// The bytes of a string's characters, for the ASCII names the
/// directory stores.
pub open spec fn str_bytes(s: Seq<char>) -> Seq<u8> {
    s.map_values(|ch: char| ch as u8)
}


/// The length of the NUL-terminated prefix of a 32-byte entry,
/// starting the scan at `i`: the index of the first NUL among bytes
/// `i..27`, or 27 when none occurs.
pub open spec fn nul_prefix_len(e: Seq<u8>, i: int) -> int
    decreases 27 - i,
{
    if i < 0 || i >= 27 {
        27
    } else if e[i] == 0 {
        i
    } else {
        nul_prefix_len(e, i + 1)
    }
}

/// The name field of directory entry `k`: its bytes up to the first
/// NUL.
pub open spec fn entry_name(c: Seq<u8>, k: int) -> Seq<u8> {
    let e = c.subrange(32 * k, 32 * k + 32);
    e.take(nul_prefix_len(e, 0))
}

/// A scan that saw no NUL before `i` and stops at `i` has found the
/// prefix length.
proof fn lemma_nul_prefix(e: Seq<u8>, i: int, j: int)
    requires
        0 <= j <= i <= 27,
        forall|q: int| j <= q < i ==> e[q] != 0,
        i == 27 || e[i] == 0,
    ensures
        nul_prefix_len(e, j) == i,
    decreases i - j,
{
    if j < i {
        lemma_nul_prefix(e, i, j + 1);
    }
}

/// Entry `k` of a directory's contents carries `nm` as its NUL-padded
/// name.
pub open spec fn entry_has_name(c: Seq<u8>, k: int, nm: Seq<u8>) -> bool {
    &&& nm.len() <= 27
    &&& forall|i: int| 0 <= i < nm.len() ==> c[32 * k + i] == nm[i]
    &&& c[32 * k + nm.len()] == 0u8
}

/// The inode number of entry `k` of a directory's contents.
pub open spec fn entry_inode(c: Seq<u8>, k: int) -> int {
    u32_le(c, 32 * k + 28)
}

/// Law: after creating `nm` in a directory that held no entry of that
/// name, exactly one entry carries `nm`: the fresh one at the tail.
pub proof fn lemma_dir_unique(c0: Seq<u8>, c1: Seq<u8>, nm: Seq<u8>)
    requires
        c0.len() % 32 == 0,
        c1.len() == c0.len() + 32,
        forall|j: int| 0 <= j < c0.len() ==> c1[j] == c0[j],
        forall|k: int| 0 <= k < c0.len() / 32 ==> !entry_has_name(c0, k, nm),
        entry_has_name(c1, c0.len() as int / 32, nm),
        nm.len() <= 27,
    ensures
        entry_has_name(c1, c1.len() as int / 32 - 1, nm),
        forall|k: int| 0 <= k < c1.len() as int / 32 - 1 ==> !entry_has_name(c1, k, nm),
{
    assert(c1.len() as int / 32 - 1 == c0.len() as int / 32) by (nonlinear_arith)
        requires
            c0.len() % 32 == 0,
            c1.len() == c0.len() + 32,
    ;
    assert forall|k: int| 0 <= k < c1.len() as int / 32 - 1 implies !entry_has_name(c1, k, nm) by {
        assert(!entry_has_name(c0, k, nm));
        assert(32 * k + 32 <= c0.len()) by (nonlinear_arith)
            requires
                0 <= k < c0.len() as int / 32,
                c0.len() % 32 == 0,
        ;
        if entry_has_name(c1, k, nm) {
            assert(forall|i: int|
                0 <= i < nm.len() ==> (#[trigger] c0[32 * k + i]) == c1[32 * k + i]);
            assert(c0[32 * k + nm.len()] == c1[32 * k + nm.len()]);
            assert(entry_has_name(c0, k, nm));
        }
    };
}

impl Inode {
    /// Scan the directory for `name`: the inode number of an entry
    /// carrying it, or `None` when no entry does.
    #[verifier::rlimit(60)]
    pub fn find(&self, fs: &mut EasyFileSystem, name: &str) -> (r: Option<u32>)
        requires
            old(fs).wf(),
            self.ok(*old(fs)),
            self.spec_size(*old(fs)) % 32 == 0,
            name@.len() <= 27,
            vstd::string::is_ascii(name),
        ensures
            final(fs).wf(),
            final(fs).same_layout(*old(fs)),
            final(fs).disk() == old(fs).disk(),
            ({
                let c = self.contents(*old(fs));
                &&& (r is Some <==> exists|k: int|
                    #![trigger entry_has_name(c, k, str_bytes(name@))]
                    0 <= k < c.len() as int / 32 && entry_has_name(
                        c,
                        k,
                        str_bytes(name@),
                    ))
                &&& (r matches Some(id) ==> exists|k: int|
                    #![trigger entry_has_name(c, k, str_bytes(name@))]
                    0 <= k < c.len() as int / 32 && entry_has_name(
                        c,
                        k,
                        str_bytes(name@),
                    ) && id == entry_inode(c, k))
            }),
    {
        let ghost c = self.contents(*old(fs));
        let ghost nm = str_bytes(name@);
        let nbytes = name.as_bytes();
        proof {
            vstd::string::is_ascii_spec_bytes(name);
            assert(nbytes@ =~= nm);
        }
        let size = self.size(fs) as usize;
        let count = size / 32;
        proof {

        }
        let mut k: usize = 0;
        while k < count
            invariant
                fs.wf(),
                self.ok(*fs),
                fs.same_layout(*old(fs)),
                fs.disk() == old(fs).disk(),
                c == self.contents(*old(fs)),
                nm == str_bytes(name@),
                nm.len() == nbytes@.len(),
                forall|i: int| 0 <= i < nm.len() ==> nm[i] == nbytes@[i],
                nm.len() <= 27,
                c.len() == size,
                size % 32 == 0,
                count == size / 32,
                k <= count,
                forall|j: int| 0 <= j < k ==> !entry_has_name(c, j, nm),
            decreases count - k,
        {
            proof {
                assert(32 * k + 32 <= size) by (nonlinear_arith)
                    requires
                        0 <= k < count,
                        count == size as int / 32,
                        size as int % 32 == 0,
                ;
            }
            let entry = self.read_at(fs, 32 * k, 32);
            proof {
                assert(entry@ == c.subrange(32 * k as int, 32 * k + 32));
            }
            let nl = nbytes.len();
            let mut matches_here: bool = true;
            let mut i: usize = 0;
            while i < nl
                invariant
                    i <= nl,
                    nl == nbytes@.len(),
                    nl <= 27,
                    entry@.len() == 32,
                    matches_here <==> (forall|j: int| 0 <= j < i ==> entry@[j] == nbytes@[j]),
                decreases nl - i,
            {
                if entry[i] != nbytes[i] {
                    matches_here = false;
                    proof {
                        assert(entry@[i as int] != nbytes@[i as int]);
                    }
                    i = nl;
                } else {
                    i = i + 1;
                }
            }
            if matches_here && entry[nl] == 0 {
                let id = {
                    let b0 = entry[28] as u32;
                    let b1 = entry[29] as u32;
                    let b2 = entry[30] as u32;
                    let b3 = entry[31] as u32;
                    b0 + 256 * b1 + 65536 * b2 + 16777216 * b3
                };
                proof {
                    assert(entry_has_name(c, k as int, nm)) by {
                        assert(forall|i2: int|
                            0 <= i2 < nm.len() ==> c[32 * (k as int) + i2] == entry@[i2]);
                        assert(c[32 * (k as int) + nm.len()] == entry@[nm.len() as int]);
                    };
                    assert(id == entry_inode(c, k as int)) by {
                        assert(entry@[28] == c[32 * (k as int) + 28]);
                        assert(entry@[29] == c[32 * (k as int) + 29]);
                        assert(entry@[30] == c[32 * (k as int) + 30]);
                        assert(entry@[31] == c[32 * (k as int) + 31]);
                    };
                }
                return Some(id);
            }
            proof {
                if entry_has_name(c, k as int, nm) {
                    assert(forall|i2: int|
                        0 <= i2 < 32 ==> (#[trigger] entry@[i2]) == c[32 * (k as int) + i2]);
                    if !matches_here {
                        assert(exists|i2: int|
                            0 <= i2 < nbytes@.len() && (#[trigger] entry@[i2]) != nbytes@[i2])
                            by {
                            if forall|i2: int|
                                0 <= i2 < nbytes@.len() ==> (#[trigger] entry@[i2]) == nbytes@[
                                i2] {
                                assert(matches_here);
                            }
                        };
                        let i2 = choose|i2: int|
                            0 <= i2 < nbytes@.len() && (#[trigger] entry@[i2]) != nbytes@[i2];
                        assert(c[32 * (k as int) + i2] == nm[i2]);
                        assert(false);
                    } else {
                        assert(entry@[nm.len() as int] == c[32 * (k as int) + nm.len()]);
                        assert(c[32 * (k as int) + nm.len()] == 0u8);
                        assert(false);
                    }
                }
            }
            k = k + 1;
        }
        None
    }

    /// The name fields of every directory entry, NUL padding
    /// stripped: `r[k]` is exactly entry `k`'s name.
    pub fn ls(&self, fs: &mut EasyFileSystem) -> (r: Vec<Vec<u8>>)
        requires
            old(fs).wf(),
            self.ok(*old(fs)),
            self.spec_size(*old(fs)) % 32 == 0,
        ensures
            final(fs).wf(),
            final(fs).disk() == old(fs).disk(),
            final(fs).same_layout(*old(fs)),
            r@.len() == self.spec_size(*old(fs)) / 32,
            forall|k: int|
                0 <= k < r@.len() ==> (#[trigger] r@[k])@ == entry_name(
                    self.contents(*old(fs)),
                    k,
                ),
    {
        let ghost c = self.contents(*old(fs));
        let size = self.size(fs) as usize;
        let count = size / 32;
        let mut r: Vec<Vec<u8>> = Vec::new();
        let mut k: usize = 0;
        while k < count
            invariant
                fs.wf(),
                self.ok(*fs),
                fs.same_layout(*old(fs)),
                fs.disk() == old(fs).disk(),
                c == self.contents(*old(fs)),
                size == self.spec_size(*old(fs)),
                size % 32 == 0,
                count == size / 32,
                k <= count,
                r@.len() == k,
                forall|q: int| 0 <= q < k ==> (#[trigger] r@[q])@ == entry_name(c, q),
            decreases count - k,
        {
            proof {
                assert(32 * k + 32 <= size) by (nonlinear_arith)
                    requires
                        0 <= k < count,
                        count == size as int / 32,
                        size as int % 32 == 0,
                ;
            }
            let entry = self.read_at(fs, 32 * k, 32);
            proof {
                assert(entry@ == c.subrange(32 * k as int, 32 * k + 32));
            }
            let mut name: Vec<u8> = Vec::new();
            let mut i: usize = 0;
            while i < 27 && entry[i] != 0
                invariant
                    i <= 27,
                    entry@.len() == 32,
                    name@.len() == i,
                    name@ == entry@.take(i as int),
                    forall|q: int| 0 <= q < i ==> entry@[q] != 0,
                decreases 27 - i,
            {
                name.push(entry[i]);
                proof {
                    assert(name@ =~= entry@.take(i + 1));
                }
                i = i + 1;
            }
            proof {
                lemma_nul_prefix(entry@, i as int, 0);
                assert(name@ == entry_name(c, k as int));
            }
            r.push(name);
            k = k + 1;
        }
        r
    }


    /// Initialize inode record `id` as an empty file: its size word
    /// becomes zero and its type word marks a file; the directory at
    /// this inode's position, every file content and both bitmaps keep
    /// their values.
    #[verifier::rlimit(100)]
    fn init_file_record(&self, fs: &mut EasyFileSystem, id: u32)
        requires
            old(fs).wf(),
            self.ok(*old(fs)),
            id < old(fs).inode_capacity(),
            !(self.b() == old(fs).spec_inode_block(id as int) && self.o()
                == EasyFileSystem::spec_inode_offset(id as int)),
        ensures
            final(fs).wf(),
            final(fs).same_layout(*old(fs)),
            self.ok(*final(fs)),
            self.spec_size(*final(fs)) == self.spec_size(*old(fs)),
            self.contents(*final(fs)) == self.contents(*old(fs)),
            ino_size(
                final(fs).disk(),
                final(fs).spec_inode_block(id as int),
                EasyFileSystem::spec_inode_offset(id as int),
            ) == 0,
            final(fs).inode_ok(
                final(fs).disk(),
                final(fs).spec_inode_block(id as int),
                EasyFileSystem::spec_inode_offset(id as int),
                0,
            ),
            final(fs).inode_bitmap.free_below(final(fs).disk(), final(fs).inode_capacity())
                == old(fs).inode_bitmap.free_below(old(fs).disk(), old(fs).inode_capacity()),
            final(fs).data_bitmap.free_below(final(fs).disk(), final(fs).data_area_blocks())
                == old(fs).data_bitmap.free_below(old(fs).disk(), old(fs).data_area_blocks()),
            forall|j: int|
                0 <= j < old(fs).inode_bitmap.blocks * 4096 ==> #[trigger] final(fs).inode_bitmap.spec_bit(final(fs).disk(), j) == old(fs).inode_bitmap.spec_bit(
                    old(fs).disk(),
                    j,
                ),
    {
        let ghost b = self.b();
        let ghost o = self.o();
        let ghost fs2 = *old(fs);
        let ghost ds = fs2.data_area_start_block as int;
        let ghost total = fs2.total_spec();
        let (nb, no) = fs.get_disk_inode_pos(id);
        write_u32(&mut fs.cache, nb, no, 0);
        write_u32(&mut fs.cache, nb, no + 124, crate::layout::TYPE_FILE);
        proof {
            let d2v = fs2.disk();
            let d3v = fs.disk();
            // the record writes stay clear of the directory's record:
            // the fresh inode occupies another slot
            let ias = fs2.inode_area_start_block as int;
            assert forall|y: int| o <= y < o + 128 implies (#[trigger] d3v[b][y]) == d2v[b][y] by {
                if b == nb {
                    assert(o != no) by (nonlinear_arith)
                        requires
                            !(b == ias + id / 4 && o == (id as int % 4) * 128),
                            b == nb,
                            nb == ias + id / 4,
                            no == (id as int % 4) * 128,
                    ;
                    assert(o + 128 <= no || no + 128 <= o) by (nonlinear_arith)
                        requires
                            o != no,
                            o % 128 == 0,
                            0 <= o,
                            no == (id as int % 4) * 128,
                            0 <= id,
                    ;
                } else {
                    assert(d3v[b] == d2v[b]);
                }
            };
            assert(forall|bb: int| ds <= bb < total ==> (#[trigger] d3v[bb]) == d2v[bb]);
            lemma_untouched_preserve(ds, total, d2v, d3v, b, o, blocks_for(ino_size(d2v, b, o)));
            assert forall|j: int|
                0 <= j < fs2.data_bitmap.blocks * 4096 implies #[trigger] fs2.data_bitmap.spec_bit(
                d3v,
                j,
            ) == fs2.data_bitmap.spec_bit(d2v, j) by {
                assert(0 <= j / 4096 < fs2.data_bitmap.blocks) by (nonlinear_arith)
                    requires
                        0 <= j < fs2.data_bitmap.blocks * 4096,
                ;
                assert(d3v[fs2.data_bitmap.start_block_id + j / 4096] == d2v[
                    fs2.data_bitmap.start_block_id + j / 4096]);
                fs2.data_bitmap.lemma_bit_same_block(d2v, d3v, j);
            };
            fs2.data_bitmap.lemma_free_below_same(d2v, d3v, fs2.data_area_blocks());
            assert forall|j: int|
                0 <= j < fs2.inode_bitmap.blocks * 4096 implies
                #[trigger] fs2.inode_bitmap.spec_bit(d3v, j) == fs2.inode_bitmap.spec_bit(
                d2v,
                j,
            ) by {
                assert(0 <= j / 4096 < fs2.inode_bitmap.blocks) by (nonlinear_arith)
                    requires
                        0 <= j < fs2.inode_bitmap.blocks * 4096,
                ;
                assert(d3v[1 + j / 4096] == d2v[1 + j / 4096]);
                fs2.inode_bitmap.lemma_bit_same_block(d2v, d3v, j);
            };
            fs2.inode_bitmap.lemma_free_below_same(d2v, d3v, fs2.inode_capacity());
            assert(self.ok(*fs));
            assert(self.contents(*fs) =~= self.contents(fs2));
            assert(ino_size(d3v, nb as int, no as int) == 0);
            assert(fs.inode_ok(d3v, nb as int, no as int, 0)) by {
                assert(owned_count(0) == 0);
            };
        }
    }

    /// Create file `name` in the directory: `None` when an entry of
    /// that name exists, else the fresh file's inode number, its
    /// record initialized empty and one entry appended.
    #[verifier::rlimit(100)]
    pub fn create(&self, fs: &mut EasyFileSystem, name: &str) -> (r: Option<u32>)
        requires
            old(fs).wf(),
            self.ok(*old(fs)),
            self.spec_size(*old(fs)) % 32 == 0,
            self.spec_size(*old(fs)) + 32 <= MAX_FILE_SIZE,
            1 <= name@.len() <= 27,
            vstd::string::is_ascii(name),
            exists|di: int|
                0 <= di < old(fs).inode_capacity() && #[trigger] old(fs).inode_bitmap.spec_bit(
                    old(fs).disk(),
                    di,
                ) && self.b() == old(fs).spec_inode_block(di) && self.o()
                    == EasyFileSystem::spec_inode_offset(di),
            old(fs).inode_bitmap.free_below(old(fs).disk(), old(fs).inode_capacity()) >= 1,
            old(fs).inode_capacity() < 0x1_0000_0000,
            old(fs).data_bitmap.free_below(old(fs).disk(), old(fs).data_area_blocks())
                >= owned_count(blocks_for(self.spec_size(*old(fs)) + 32)) - owned_count(
                blocks_for(self.spec_size(*old(fs))),
            ) + 2,
        ensures
            final(fs).wf(),
            final(fs).same_layout(*old(fs)),
            r is None <==> exists|k: int|
                #![trigger entry_has_name(self.contents(*old(fs)), k, str_bytes(name@))]
                0 <= k < self.contents(*old(fs)).len() as int / 32 && entry_has_name(
                    self.contents(*old(fs)),
                    k,
                    str_bytes(name@),
                ),
            r is None ==> final(fs).disk() == old(fs).disk(),
            r is Some ==> self.ok(*final(fs)),
            r is Some ==> self.contents(*final(fs)).len() == self.contents(*old(fs)).len() + 32,
            r is Some ==> forall|j: int|
                0 <= j < self.contents(*old(fs)).len() ==> #[trigger] self.contents(*final(fs))[j]
                    == self.contents(*old(fs))[j],
            r is Some ==> entry_has_name(
                self.contents(*final(fs)),
                self.contents(*old(fs)).len() as int / 32,
                str_bytes(name@),
            ),
            r is Some ==> entry_inode(
                self.contents(*final(fs)),
                self.contents(*old(fs)).len() as int / 32,
            ) == r->0,
            r is Some ==> r->0 < old(fs).inode_capacity(),
            r is Some ==> ino_size(
                final(fs).disk(),
                final(fs).spec_inode_block(r->0 as int),
                EasyFileSystem::spec_inode_offset(r->0 as int),
            ) == 0,
            r is Some ==> final(fs).inode_ok(
                final(fs).disk(),
                final(fs).spec_inode_block(r->0 as int),
                EasyFileSystem::spec_inode_offset(r->0 as int),
                0,
            ),
            // bookkeeping: one inode bit and exactly the directory's
            // growth are consumed
            r is Some ==> final(fs).inode_bitmap.free_below(
                final(fs).disk(),
                final(fs).inode_capacity(),
            ) == old(fs).inode_bitmap.free_below(old(fs).disk(), old(fs).inode_capacity()) - 1,
            r is Some ==> final(fs).data_bitmap.free_below(
                final(fs).disk(),
                final(fs).data_area_blocks(),
            ) == old(fs).data_bitmap.free_below(old(fs).disk(), old(fs).data_area_blocks()) - (
            owned_count(blocks_for(self.spec_size(*old(fs)) + 32)) - owned_count(
                blocks_for(self.spec_size(*old(fs))),
            )),
    {
        let ghost c0 = self.contents(*old(fs));
        let ghost nm = str_bytes(name@);
        let ghost b = self.b();
        let ghost o = self.o();
        let ghost ds = old(fs).data_area_start_block as int;
        let ghost dbs = old(fs).data_bitmap.start_block_id as int;
        let ghost total = old(fs).total_spec();
        let ghost m0 = blocks_for(self.spec_size(*old(fs)));
        match self.find(fs, name) {
            Some(_) => None,
            None => {
                let size = self.size(fs) as usize;
                let id = fs.alloc_inode();
                let ghost fs1 = *fs;
                proof {
                    let d0v = old(fs).disk();
                    let d1v = fs1.disk();
                    assert(forall|y: int| o <= y < o + 128 ==> (#[trigger] d1v[b][y]) == d0v[b][y])
                        by {
                        assert(d1v[b] == d0v[b]);
                    };
                    assert(forall|bb: int| ds <= bb < total ==> (#[trigger] d1v[bb]) == d0v[bb]);
                    lemma_untouched_preserve(ds, total, d0v, d1v, b, o, m0);
                    assert forall|j: int|
                        0 <= j < old(fs).data_bitmap.blocks * 4096 implies
                        #[trigger] fs1.data_bitmap.spec_bit(d1v, j) == old(fs).data_bitmap.spec_bit(d0v, j) by {
                        old(fs).data_bitmap.lemma_bit_same_block(d0v, d1v, j);
                    };
                    old(fs).data_bitmap.lemma_free_below_same(
                        d0v,
                        d1v,
                        old(fs).data_area_blocks(),
                    );
                    assert(self.ok(fs1));
                    assert(self.contents(fs1) =~= c0);
                }
                // append the directory entry: NUL-padded name, then id
                let nbytes = name.as_bytes();
                proof {
                    vstd::string::is_ascii_spec_bytes(name);
                    assert(nbytes@ =~= nm);
                }
                let mut entry: Vec<u8> = Vec::new();
                let mut i: usize = 0;
                while i < nbytes.len()
                    invariant
                        i <= nbytes@.len(),
                        nbytes@.len() <= 27,
                        entry@.len() == i,
                        forall|j: int| 0 <= j < i ==> entry@[j] == nbytes@[j],
                    decreases nbytes@.len() - i,
                {
                    entry.push(nbytes[i]);
                    i = i + 1;
                }
                while i < 28
                    invariant
                        nbytes@.len() <= i <= 28,
                        entry@.len() == i,
                        forall|j: int| 0 <= j < nbytes@.len() ==> entry@[j] == nbytes@[j],
                        forall|j: int| nbytes@.len() <= j < i ==> entry@[j] == 0u8,
                    decreases 28 - i,
                {
                    entry.push(0u8);
                    i = i + 1;
                }
                entry.push((id % 256) as u8);
                entry.push(((id / 256) % 256) as u8);
                entry.push(((id / 65536) % 256) as u8);
                entry.push(((id / 16777216) % 256) as u8);
                let w = self.write_at(fs, size, entry.as_slice());
                let ghost fs2 = *fs;
                proof {
                    // the directory write never touches the inode
                    // bitmap's blocks
                    assert forall|j: int|
                        0 <= j < fs1.inode_bitmap.blocks * 4096 implies
                        #[trigger] fs2.inode_bitmap.spec_bit(fs2.disk(), j)
                            == fs1.inode_bitmap.spec_bit(fs1.disk(), j) by {
                        assert(0 <= j / 4096 < fs1.inode_bitmap.blocks) by (nonlinear_arith)
                            requires
                                0 <= j < fs1.inode_bitmap.blocks * 4096,
                        ;
                        assert(fs2.disk()[1 + j / 4096] == fs1.disk()[1 + j / 4096]);
                        fs1.inode_bitmap.lemma_bit_same_block(fs1.disk(), fs2.disk(), j);
                    };
                    fs1.inode_bitmap.lemma_free_below_same(
                        fs1.disk(),
                        fs2.disk(),
                        fs1.inode_capacity(),
                    );
                    let c1 = self.contents(fs2);
                    assert(c1.len() == c0.len() + 32);
                    assert(forall|j: int| 0 <= j < c0.len() ==> #[trigger] c1[j] == c0[j]);
                    assert(entry_has_name(c1, c0.len() as int / 32, nm)) by {
                        assert(32 * (c0.len() as int / 32) == c0.len()) by (nonlinear_arith)
                            requires
                                c0.len() % 32 == 0,
                        ;
                        assert(forall|j: int|
                            0 <= j < nm.len() ==> (#[trigger] c1[c0.len() as int + j]) == entry@[
                            j]);
                        assert(c1[c0.len() as int + nm.len()] == entry@[nm.len() as int]);
                    };
                    assert(entry_inode(c1, c0.len() as int / 32) == id) by {
                        assert(32 * (c0.len() as int / 32) == c0.len()) by (nonlinear_arith)
                            requires
                                c0.len() % 32 == 0,
                        ;
                        assert(c1[c0.len() as int + 28] == entry@[28]);
                        assert(c1[c0.len() as int + 29] == entry@[29]);
                        assert(c1[c0.len() as int + 30] == entry@[30]);
                        assert(c1[c0.len() as int + 31] == entry@[31]);
                        crate::layout::lemma_u32_round_trip(id as int);
                        assert(u32_le(c1, c0.len() as int + 28) == id);
                    };
                }
                // initialize the fresh inode record as an empty file
                proof {
                    let di = choose|di: int|
                        0 <= di < old(fs).inode_capacity() && #[trigger] old(fs).inode_bitmap.spec_bit(old(fs).disk(), di) && b == old(fs).spec_inode_block(di) && o == EasyFileSystem::spec_inode_offset(di);
                    assert(id != di);
                    let ias = old(fs).inode_area_start_block as int;
                    if b == fs.spec_inode_block(id as int) && o
                        == EasyFileSystem::spec_inode_offset(id as int) {
                        assert(di == id) by (nonlinear_arith)
                            requires
                                ias + di / 4 == ias + id / 4,
                                (di % 4) * 128 == (id as int % 4) * 128,
                                0 <= di,
                                0 <= id,
                        ;
                        assert(false);
                    }
                }
                self.init_file_record(fs, id);
                Some(id)
            },
        }
    }
}

} // verus!
