//! Line-count statistics over two path tables: how many lines one
//! tree removes from and adds to another.

use vstd::prelude::*;

use crate::repo::LineCountMap;

verus! {

/// What one key contributes to the totals: the removed and the added
/// lines, one of which is always zero.  A key missing from a table
/// counts as zero lines there.
pub open spec fn diff_step(
    key: Seq<char>,
    cur: Map<Seq<char>, u32>,
    prev: Map<Seq<char>, u32>,
) -> (int, int) {
    let new_v: int = if cur.contains_key(key) {
        cur[key] as int
    } else {
        0
    };
    let old_v: int = if prev.contains_key(key) {
        prev[key] as int
    } else {
        0
    };
    if new_v - old_v > 0 {
        (0int, new_v - old_v)
    } else {
        (old_v - new_v, 0int)
    }
}

/// The totals over a sequence of keys: lines removed and lines added.
pub open spec fn diff_sums(
    keys: Seq<Seq<char>>,
    cur: Map<Seq<char>, u32>,
    prev: Map<Seq<char>, u32>,
) -> (int, int)
    decreases keys.len(),
{
    if keys.len() == 0 {
        (0int, 0int)
    } else {
        let rest = diff_sums(keys.drop_last(), cur, prev);
        let st = diff_step(keys.last(), cur, prev);
        (rest.0 + st.0, rest.1 + st.1)
    }
}

/// The key sequence of a table: each entry's key, in entry order.
pub open spec fn table_keys(entries: Seq<(String, u32)>) -> Seq<Seq<char>> {
    entries.map_values(|e: (String, u32)| e.0@)
}

/// The key sequence the difference ranges over: the current table's
/// keys followed by those of the previous table's keys that the
/// current table does not hold, so that every distinct key
/// contributes exactly once.
pub open spec fn diff_keys(cur: LineCountMap, prev: LineCountMap) -> Seq<Seq<char>> {
    table_keys(cur.entries@) + table_keys(prev.entries@).filter(
        |k: Seq<char>| !cur@.contains_key(k),
    )
}

/// Appending keys never shrinks either total: every step is
/// non-negative.
proof fn lemma_diff_sums_extend(
    a: Seq<Seq<char>>,
    b: Seq<Seq<char>>,
    cur: Map<Seq<char>, u32>,
    prev: Map<Seq<char>, u32>,
)
    ensures
        diff_sums(a, cur, prev).0 <= diff_sums(a + b, cur, prev).0,
        diff_sums(a, cur, prev).1 <= diff_sums(a + b, cur, prev).1,
    decreases b.len(),
{
    if b.len() == 0 {
        assert(a + b =~= a);
    } else {
        lemma_diff_sums_extend(a, b.drop_last(), cur, prev);
        assert((a + b).drop_last() =~= a + b.drop_last());
        assert((a + b).last() == b.last());
    }
}

/// The totals over both tables' keys, refusing values that do not
/// fit an `i32`.  The first total is the lines removed, the second
/// the lines added.
pub fn tree_diff_checked(current_tree: &LineCountMap, old_tree: &LineCountMap) -> (r: Option<
    (i32, i32),
>)
    requires
        current_tree.wf(),
        old_tree.wf(),
    ensures
        match r {
            Some(t) => {
                &&& diff_sums(diff_keys(*current_tree, *old_tree), current_tree@, old_tree@)
                    == (t.0 as int, t.1 as int)
            },
            None => diff_sums(diff_keys(*current_tree, *old_tree), current_tree@, old_tree@).0
                > i32::MAX || diff_sums(
                diff_keys(*current_tree, *old_tree),
                current_tree@,
                old_tree@,
            ).1 > i32::MAX,
        },
{
    let ghost keys = diff_keys(*current_tree, *old_tree);
    let ghost keys_cur = table_keys(current_tree.entries@);
    let ghost keys_prev = table_keys(old_tree.entries@);
    let ghost skip_known = |k: Seq<char>| !current_tree@.contains_key(k);
    let len1 = current_tree.entries.len();
    let len2 = old_tree.entries.len();
    let mut removed: i64 = 0;
    let mut added: i64 = 0;
    let mut j: usize = 0;
    proof {
        assert(keys == keys_cur + keys_prev.filter(skip_known));
        assert(keys_cur.take(0) =~= Seq::<Seq<char>>::empty());
    }
    while j < len1
        invariant
            current_tree.wf(),
            old_tree.wf(),
            keys == diff_keys(*current_tree, *old_tree),
            keys_cur == table_keys(current_tree.entries@),
            keys_prev == table_keys(old_tree.entries@),
            skip_known == (|k: Seq<char>| !current_tree@.contains_key(k)),
            keys == keys_cur + keys_prev.filter(skip_known),
            len1 == current_tree.entries@.len(),
            len2 == old_tree.entries@.len(),
            j <= len1,
            (removed as int, added as int) == diff_sums(keys_cur.take(j as int), current_tree@,
            old_tree@),
            0 <= removed <= i32::MAX,
            0 <= added <= i32::MAX,
        decreases len1 - j,
    {
        let key: &String = &current_tree.entries[j].0;
        proof {
            assert(keys_cur[j as int] == key@);
        }
        let new_value: i64 = match current_tree.get(key) {
            Some(v) => v as i64,
            None => 0,
        };
        let old_value: i64 = match old_tree.get(key) {
            Some(v) => v as i64,
            None => 0,
        };
        let delta = new_value - old_value;
        proof {
            assert(keys_cur.take(j + 1).drop_last() =~= keys_cur.take(j as int));
            assert(keys_cur.take(j + 1).last() == keys_cur[j as int]);
        }
        if delta > 0 {
            added = added + delta;
        } else {
            removed = removed - delta;
        }
        j = j + 1;
        if removed > i32::MAX as i64 || added > i32::MAX as i64 {
            proof {
                assert(keys_cur =~= keys_cur.take(j as int) + keys_cur.skip(j as int));
                assert(keys =~= keys_cur.take(j as int) + (keys_cur.skip(j as int)
                    + keys_prev.filter(skip_known)));
                lemma_diff_sums_extend(
                    keys_cur.take(j as int),
                    keys_cur.skip(j as int) + keys_prev.filter(skip_known),
                    current_tree@,
                    old_tree@,
                );
            }
            return None;
        }
    }
    let mut k: usize = 0;
    proof {
        assert(keys_cur.take(len1 as int) =~= keys_cur);
        reveal(Seq::filter);
        assert(keys_prev.take(0).filter(skip_known) =~= Seq::<Seq<char>>::empty());
        assert(keys_cur + keys_prev.take(0).filter(skip_known) =~= keys_cur);
    }
    while k < len2
        invariant
            current_tree.wf(),
            old_tree.wf(),
            keys == diff_keys(*current_tree, *old_tree),
            keys_cur == table_keys(current_tree.entries@),
            keys_prev == table_keys(old_tree.entries@),
            skip_known == (|k: Seq<char>| !current_tree@.contains_key(k)),
            keys == keys_cur + keys_prev.filter(skip_known),
            len1 == current_tree.entries@.len(),
            len2 == old_tree.entries@.len(),
            k <= len2,
            (removed as int, added as int) == diff_sums(
                keys_cur + keys_prev.take(k as int).filter(skip_known),
                current_tree@,
                old_tree@,
            ),
            0 <= removed <= i32::MAX,
            0 <= added <= i32::MAX,
        decreases len2 - k,
    {
        let key: &String = &old_tree.entries[k].0;
        proof {
            reveal(Seq::filter);
            assert(keys_prev[k as int] == key@);
            assert(keys_prev.take(k + 1).drop_last() =~= keys_prev.take(k as int));
            assert(keys_prev.take(k + 1).last() == keys_prev[k as int]);
        }
        let new_value: i64 = match current_tree.get(key) {
            Some(_) => {
                // The current table already counted this key.
                proof {
                    reveal(Seq::filter);
                    assert(!skip_known(key@));
                    assert(keys_prev.take(k + 1).filter(skip_known) == keys_prev.take(
                        k as int,
                    ).filter(skip_known));
                }
                k = k + 1;
                continue ;
            },
            None => 0,
        };
        proof {
            reveal(Seq::filter);
            assert(skip_known(key@));
            assert(keys_prev.take(k + 1).filter(skip_known) == keys_prev.take(k as int).filter(
                skip_known,
            ).push(key@));
            assert((keys_cur + keys_prev.take(k + 1).filter(skip_known)).drop_last() =~= keys_cur
                + keys_prev.take(k as int).filter(skip_known));
            assert((keys_cur + keys_prev.take(k + 1).filter(skip_known)).last() == key@);
        }
        let old_value: i64 = match old_tree.get(key) {
            Some(v) => v as i64,
            None => 0,
        };
        let delta = new_value - old_value;
        if delta > 0 {
            added = added + delta;
        } else {
            removed = removed - delta;
        }
        k = k + 1;
        if removed > i32::MAX as i64 || added > i32::MAX as i64 {
            proof {
                assert(keys_prev =~= keys_prev.take(k as int) + keys_prev.skip(k as int));
                Seq::filter_distributes_over_add(
                    keys_prev.take(k as int),
                    keys_prev.skip(k as int),
                    skip_known,
                );
                assert(keys =~= (keys_cur + keys_prev.take(k as int).filter(skip_known))
                    + keys_prev.skip(k as int).filter(skip_known));
                lemma_diff_sums_extend(
                    keys_cur + keys_prev.take(k as int).filter(skip_known),
                    keys_prev.skip(k as int).filter(skip_known),
                    current_tree@,
                    old_tree@,
                );
            }
            return None;
        }
    }
    proof {
        assert(keys_prev.take(len2 as int) =~= keys_prev);
    }
    Some((removed as i32, added as i32))
}

/// The totals over both tables' keys: lines removed and lines added.
/// Callers must know the totals fit an `i32`; [`tree_diff_checked`]
/// reports the overflow instead.
pub fn tree_diff(current_tree: &LineCountMap, old_tree: &LineCountMap) -> (r: (i32, i32))
    requires
        current_tree.wf(),
        old_tree.wf(),
        diff_sums(diff_keys(*current_tree, *old_tree), current_tree@, old_tree@).0 <= i32::MAX,
        diff_sums(diff_keys(*current_tree, *old_tree), current_tree@, old_tree@).1 <= i32::MAX,
    ensures
        (r.0 as int, r.1 as int) == diff_sums(
            diff_keys(*current_tree, *old_tree),
            current_tree@,
            old_tree@,
        ),
{
    match tree_diff_checked(current_tree, old_tree) {
        Some(t) => t,
        None => {
            proof {
                assert(false);
            }
            (0, 0)
        },
    }
}

} // verus!
