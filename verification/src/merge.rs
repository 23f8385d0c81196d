//! Merging the item sets that differ in lookaheads only.

use rustc_hash::FxHashMap;
use vstd::prelude::*;

use crate::canonical;
use crate::canonical::Canonical;
use crate::count;
use crate::derivation::Rule;
use crate::error::{enforce_compile_limit, CompileError, CompileStage};
use crate::fx;
use crate::item_sets;
use crate::item_sets::LrGrammar;
use crate::lr;
use crate::lr::{Lookahead, Lr1Item};
use crate::schema::CompileLimits;
use crate::symbol::Symbol;

verus! {

/// Whether a list holds an item with the production and dot, whatever its lookahead.
pub open spec fn holds_core(items: Seq<Lr1Item>, production: u32, dot: u32) -> bool {
    exists|lookahead: Lookahead| #[trigger]
        items.contains(Lr1Item { production, dot, lookahead })
}

/// Whether two lists hold the same items but for the lookaheads.
pub open spec fn same_core(a: Seq<Lr1Item>, b: Seq<Lr1Item>) -> bool {
    forall|production: u32, dot: u32|
        #![trigger holds_core(a, production, dot)]
        #![trigger holds_core(b, production, dot)]
        holds_core(a, production, dot) <==> holds_core(b, production, dot)
}

/// A production and a dot as a number.
pub open spec fn pair_rank(pair: (u32, u32)) -> int {
    pair.0 * 0x1_0000_0000 + pair.1
}

/// Whether pairs ascend, each once.
pub open spec fn pairs_ascend(pairs: Seq<(u32, u32)>) -> bool {
    forall|i: int, j: int|
        0 <= i < j < pairs.len() ==> pair_rank(pairs[i]) < pair_rank(pairs[j])
}

/// Ascending pairs are determined by which ones they are.
proof fn lemma_pairs_unique(a: Seq<(u32, u32)>, b: Seq<(u32, u32)>)
    requires
        pairs_ascend(a),
        pairs_ascend(b),
        forall|pair: (u32, u32)|
            #![trigger a.contains(pair)]
            #![trigger b.contains(pair)]
            a.contains(pair) <==> b.contains(pair),
    ensures
        a == b,
    decreases a.len(),
{
    if a.len() == 0 {
        if b.len() > 0 {
            assert(b.contains(b[0]));
            assert(a.contains(b[0]));
        }
        assert(a =~= b);
    } else {
        let last = a.last();
        assert(a.contains(last)) by {
            assert(a[a.len() - 1] == last);
        }
        assert(b.contains(last));
        let end = b.last();
        assert(b.contains(end)) by {
            assert(b[b.len() - 1] == end);
        }
        assert(a.contains(end));
        let i = choose|i: int| 0 <= i < b.len() && b[i] == last;
        let j = choose|j: int| 0 <= j < a.len() && a[j] == end;
        assert(last == end) by {
            if i < b.len() - 1 {
                assert(pair_rank(b[i]) < pair_rank(b[b.len() - 1]));
                if j < a.len() - 1 {
                    assert(pair_rank(a[j]) < pair_rank(a[a.len() - 1]));
                }
            }
        }
        let x = a.drop_last();
        let y = b.drop_last();
        assert forall|pair: (u32, u32)|
            #![trigger x.contains(pair)]
            #![trigger y.contains(pair)]
            x.contains(pair) <==> y.contains(pair) by {
            if x.contains(pair) {
                let k = choose|k: int| 0 <= k < x.len() && x[k] == pair;
                assert(a[k] == pair);
                assert(pair_rank(a[k]) < pair_rank(a[a.len() - 1]));
                assert(b.contains(pair));
                let m = choose|m: int| 0 <= m < b.len() && b[m] == pair;
                assert(y[m] == pair);
            }
            if y.contains(pair) {
                let k = choose|k: int| 0 <= k < y.len() && y[k] == pair;
                assert(b[k] == pair);
                assert(pair_rank(b[k]) < pair_rank(b[b.len() - 1]));
                assert(a.contains(pair));
                let m = choose|m: int| 0 <= m < a.len() && a[m] == pair;
                assert(x[m] == pair);
            }
        }
        lemma_pairs_unique(x, y);
        assert(a =~= x.push(last));
        assert(b =~= y.push(end));
    }
}

/// Whether pairs are the productions and dots of items, in ascending order.
pub open spec fn is_core(items: Seq<Lr1Item>, core: Seq<(u32, u32)>) -> bool {
    &&& pairs_ascend(core)
    &&& forall|pair: (u32, u32)| #[trigger]
        core.contains(pair) <==> holds_core(items, pair.0, pair.1)
}

/// The productions and dots of items, in ascending order.
fn core_of(items: &Vec<Lr1Item>) -> (core: Vec<(u32, u32)>)
    requires
        item_sets::items_ascend(items@),
    ensures
        is_core(items@, core@),
{
    let mut core: Vec<(u32, u32)> = Vec::new();
    let mut index: usize = 0;
    while index < items.len()
        invariant
            item_sets::items_ascend(items@),
            index <= items@.len(),
            pairs_ascend(core@),
            core@.len() == 0 ==> index == 0,
            core@.len() > 0 ==> index > 0 && core@.last() == (
                items@[index - 1].production,
                items@[index - 1].dot,
            ),
            forall|x: int|
                0 <= x < index ==> core@.contains(
                    (#[trigger] items@[x].production, items@[x].dot),
                ),
            forall|x: int|
                0 <= x < core@.len() ==> holds_core(
                    items@,
                    (#[trigger] core@[x]).0,
                    core@[x].1,
                ),
        decreases items@.len() - index,
    {
        let item = items[index];
        let pair = (item.production, item.dot);
        let ghost before = core@;
        assert(items@.contains(item)) by {
            assert(items@[index as int] == item);
        }
        assert(holds_core(items@, item.production, item.dot)) by {
            assert(item == (Lr1Item {
                production: item.production,
                dot: item.dot,
                lookahead: item.lookahead,
            }));
        }
        let fresh = if core.len() == 0 {
            true
        } else {
            let last = core[core.len() - 1];
            last.0 != pair.0 || last.1 != pair.1
        };
        if fresh {
            core.push(pair);
            proof {
                assert forall|i: int, j: int| 0 <= i < j < core@.len() implies pair_rank(core@[i])
                    < pair_rank(core@[j]) by {
                    if j == before.len() {
                        let earlier = items@[index - 1];
                        assert(item_sets::item_rank(earlier) < item_sets::item_rank(item));
                        if i < before.len() - 1 {
                            assert(pair_rank(before[i]) < pair_rank(before[before.len() - 1]));
                        }
                    }
                }
                assert(core@[before.len() as int] == pair);
            }
        }
        assert forall|x: int| 0 <= x < index + 1 implies core@.contains(
            (#[trigger] items@[x].production, items@[x].dot),
        ) by {
            let p = (items@[x].production, items@[x].dot);
            if x < index {
                assert(before.contains(p));
                let y = choose|y: int| 0 <= y < before.len() && before[y] == p;
                assert(core@[y] == p);
            } else if !fresh {
                assert(core@[core@.len() - 1] == p);
            } else {
                assert(core@[before.len() as int] == p);
            }
        }
        index += 1;
    }
    proof {
        assert forall|pair: (u32, u32)| #[trigger] core@.contains(pair) <==> holds_core(
            items@,
            pair.0,
            pair.1,
        ) by {
            if core@.contains(pair) {
                let x = choose|x: int| 0 <= x < core@.len() && core@[x] == pair;
                assert(holds_core(items@, core@[x].0, core@[x].1));
            }
            if holds_core(items@, pair.0, pair.1) {
                let la = choose|la: Lookahead| #[trigger]
                    items@.contains(
                        Lr1Item { production: pair.0, dot: pair.1, lookahead: la },
                    );
                let item = Lr1Item { production: pair.0, dot: pair.1, lookahead: la };
                let x = choose|x: int| 0 <= x < items@.len() && items@[x] == item;
                assert(core@.contains((items@[x].production, items@[x].dot)));
            }
        }
    }
    core
}

/// Cores are the same exactly if the items are, but for the lookaheads.
proof fn lemma_cores(a: Seq<Lr1Item>, b: Seq<Lr1Item>, x: Seq<(u32, u32)>, y: Seq<(u32, u32)>)
    requires
        is_core(a, x),
        is_core(b, y),
    ensures
        x == y <==> same_core(a, b),
{
    if x == y {
        assert forall|production: u32, dot: u32|
            #![trigger holds_core(a, production, dot)]
            #![trigger holds_core(b, production, dot)]
            holds_core(a, production, dot) <==> holds_core(b, production, dot) by {
            assert(x.contains((production, dot)) <==> y.contains((production, dot)));
        }
    }
    if same_core(a, b) {
        assert forall|pair: (u32, u32)|
            #![trigger x.contains(pair)]
            #![trigger y.contains(pair)]
            x.contains(pair) <==> y.contains(pair) by {
            assert(holds_core(a, pair.0, pair.1) <==> holds_core(b, pair.0, pair.1));
        }
        lemma_pairs_unique(x, y);
    }
}

/// Whether two cores are the same.
fn same_pairs(a: &Vec<(u32, u32)>, b: &Vec<(u32, u32)>) -> (same: bool)
    ensures
        same == (a@ == b@),
{
    if a.len() != b.len() {
        return false;
    }
    let mut index: usize = 0;
    while index < a.len()
        invariant
            index <= a@.len() == b@.len(),
            forall|i: int| 0 <= i < index ==> a@[i] == b@[i],
        decreases a@.len() - index,
    {
        if a[index].0 != b[index].0 || a[index].1 != b[index].1 {
            return false;
        }
        index += 1;
    }
    assert(a@ =~= b@);
    true
}

/// A number for the first pairs of a list. Lists with different numbers are different.
pub open spec fn pairs_code(pairs: Seq<(u32, u32)>, n: nat) -> u32
    decreases n,
{
    if n == 0 {
        0u32
    } else {
        pairs_code(pairs, (n - 1) as nat).wrapping_mul(31).wrapping_add(
            pairs[n - 1].0,
        ).wrapping_mul(31).wrapping_add(pairs[n - 1].1)
    }
}

fn code_pairs(pairs: &Vec<(u32, u32)>) -> (code: u32)
    ensures
        code == pairs_code(pairs@, pairs@.len()),
{
    let mut code: u32 = 0;
    let mut index: usize = 0;
    while index < pairs.len()
        invariant
            index <= pairs@.len(),
            code == pairs_code(pairs@, index as nat),
        decreases pairs@.len() - index,
    {
        code = code.wrapping_mul(31).wrapping_add(pairs[index].0).wrapping_mul(31).wrapping_add(
            pairs[index].1,
        );
        index += 1;
    }
    code
}

/// Whether every core is found under its number.
#[verifier::opaque]
spec fn indexed(cores: Seq<Vec<(u32, u32)>>, index: Map<u32, Vec<u32>>) -> bool {
    forall|s: int|
        #![trigger cores[s]]
        0 <= s < cores.len() ==> index.dom().contains(pairs_code(cores[s]@, cores[s]@.len()))
            && index[pairs_code(cores[s]@, cores[s]@.len())]@.contains(s as u32)
}

/// The group with the given core, if there is one.
fn find_group(
    cores: &Vec<Vec<(u32, u32)>>,
    index: &FxHashMap<u32, Vec<u32>>,
    core: &Vec<(u32, u32)>,
) -> (found: Option<u32>)
    requires
        indexed(cores@, index@),
        cores@.len() <= u32::MAX + 1,
    ensures
        match found {
            Some(s) => s < cores@.len() && cores@[s as int]@ == core@,
            None => forall|s: int| 0 <= s < cores@.len() ==> (#[trigger] cores@[s])@ != core@,
        },
{
    proof {
        reveal(indexed);
    }
    let code = code_pairs(core);
    match fx::map_get(index, code) {
        Some(list) => {
            let mut place: usize = 0;
            while place < list.len()
                invariant
                    place <= list@.len(),
                    forall|x: int|
                        0 <= x < place && (#[trigger] list@[x]) < cores@.len()
                            ==> cores@[list@[x] as int]@ != core@,
                decreases list@.len() - place,
            {
                let group = list[place];
                if (group as usize) < cores.len() && same_pairs(&cores[group as usize], core) {
                    return Some(group);
                }
                place += 1;
            }
            assert forall|s: int| 0 <= s < cores@.len() implies (#[trigger] cores@[s])@
                != core@ by {
                if cores@[s]@ == core@ {
                    assert(list@.contains(s as u32));
                    let x = choose|x: int| 0 <= x < list@.len() && list@[x] == s as u32;
                    assert(list@[x] < cores@.len());
                }
            }
            None
        },
        None => {
            assert forall|s: int| 0 <= s < cores@.len() implies (#[trigger] cores@[s])@
                != core@ by {
                if cores@[s]@ == core@ {
                    assert(index@.dom().contains(code));
                }
            }
            None
        },
    }
}

/// Notes a new group under its number.
fn note_group(
    cores: &Vec<Vec<(u32, u32)>>,
    index: &mut FxHashMap<u32, Vec<u32>>,
    code: u32,
    group: u32,
)
    requires
        0 < cores@.len() <= u32::MAX + 1,
        group == cores@.len() - 1,
        code == pairs_code(cores@.last()@, cores@.last()@.len()),
        indexed(cores@.drop_last(), old(index)@),
    ensures
        indexed(cores@, final(index)@),
{
    proof {
        reveal(indexed);
    }
    let ghost before = index@;
    let mut list: Vec<u32> = match fx::map_get(index, code) {
        Some(list) => {
            let copy = list.clone();
            assert(copy@ =~= list@);
            copy
        },
        None => Vec::new(),
    };
    let ghost old_list = list@;
    list.push(group);
    assert(list@[old_list.len() as int] == group);
    fx::map_insert(index, code, list);
    assert forall|s: int|
        #![trigger cores@[s]]
        0 <= s < cores@.len() implies index@.dom().contains(
        pairs_code(cores@[s]@, cores@[s]@.len()),
    ) && index@[pairs_code(cores@[s]@, cores@[s]@.len())]@.contains(s as u32) by {
        let front = cores@.drop_last();
        if s < front.len() {
            assert(front[s] == cores@[s]);
            let c = pairs_code(front[s]@, front[s]@.len());
            assert(before.dom().contains(c) && before[c]@.contains(s as u32));
            if c == code {
                let x = choose|x: int| 0 <= x < old_list.len() && old_list[x] == s as u32;
                assert(list@[x] == s as u32);
            }
        }
    }
}

/// Whether states are the unions of the item sets with the same cores, and the mapping leads from
/// each of these to its union.
#[verifier::opaque]
pub open spec fn merged_exact(
    sets: Seq<Vec<Lr1Item>>,
    states: Seq<Vec<Lr1Item>>,
    mapping: Seq<u32>,
) -> bool {
    &&& mapping.len() == sets.len()
    &&& states.len() <= sets.len()
    &&& states.len() <= u32::MAX + 1
    &&& forall|c: int| 0 <= c < mapping.len() ==> (#[trigger] mapping[c]) < states.len()
    &&& mapping.len() > 0 ==> mapping[0] == 0
    &&& forall|c: int, item: Lr1Item|
        0 <= c < mapping.len() && #[trigger] sets[c]@.contains(item) ==> states[
        mapping[c] as int]@.contains(item)
    &&& forall|m: int, item: Lr1Item|
        0 <= m < states.len() && #[trigger] states[m]@.contains(item) ==> from_set(
            sets,
            mapping,
            m,
            item,
        )
    &&& forall|m: int| 0 <= m < states.len() ==> item_sets::items_ascend((#[trigger] states[m])@)
    &&& forall|c: int, d: int|
        0 <= c < mapping.len() && 0 <= d < mapping.len() ==> (#[trigger] mapping[c]
            == #[trigger] mapping[d] <==> same_core(sets[c]@, sets[d]@))
    &&& forall|m: int| 0 <= m < states.len() ==> has_member(mapping, m)
}

/// Whether an item set maps to a state.
pub open spec fn has_member(mapping: Seq<u32>, m: int) -> bool {
    exists|c: int| 0 <= c < mapping.len() && #[trigger] mapping[c] == m
}

/// Whether an item of a state comes from one of its item sets.
pub open spec fn from_set(
    sets: Seq<Vec<Lr1Item>>,
    mapping: Seq<u32>,
    m: int,
    item: Lr1Item,
) -> bool {
    exists|c: int|
        0 <= c < mapping.len() && #[trigger] mapping[c] == m && sets[c]@.contains(item)
}

/// Adds the items of a list to another.
fn add_items(items: &mut Vec<Lr1Item>, more: &Vec<Lr1Item>)
    requires
        item_sets::items_ascend(old(items)@),
    ensures
        item_sets::items_ascend(final(items)@),
        forall|item: Lr1Item| #[trigger]
            final(items)@.contains(item) <==> old(items)@.contains(item) || more@.contains(item),
{
    let ghost before = items@;
    let mut index: usize = 0;
    while index < more.len()
        invariant
            index <= more@.len(),
            item_sets::items_ascend(items@),
            forall|item: Lr1Item| #[trigger]
                items@.contains(item) <==> before.contains(item) || more@.take(
                    index as int,
                ).contains(item),
        decreases more@.len() - index,
    {
        let ghost then = items@;
        let item = more[index];
        item_sets::insert_item(items, item);
        proof {
            let taken = more@.take(index as int);
            let next = more@.take(index + 1);
            assert forall|x: Lr1Item| #[trigger] items@.contains(x) <==> before.contains(x)
                || next.contains(x) by {
                assert(items@.contains(x) <==> then.contains(x) || x == item);
                if next.contains(x) {
                    let k = choose|k: int| 0 <= k < next.len() && next[k] == x;
                    if k < index {
                        assert(taken[k] == x);
                    }
                }
                if taken.contains(x) {
                    let k = choose|k: int| 0 <= k < taken.len() && taken[k] == x;
                    assert(next[k] == x);
                }
                if x == item {
                    assert(next[index as int] == x);
                }
            }
        }
        index += 1;
    }
    assert(more@.take(index as int) =~= more@);
}

/// What holds while item sets are merged.
#[verifier::opaque]
spec fn merging(
    sets: Seq<Vec<Lr1Item>>,
    done: int,
    states: Seq<Vec<Lr1Item>>,
    cores: Seq<Vec<(u32, u32)>>,
    mapping: Seq<u32>,
) -> bool {
    &&& 0 <= done <= sets.len()
    &&& merged_exact(sets.take(done), states, mapping)
    &&& cores.len() == states.len()
    &&& forall|c: int|
        0 <= c < done ==> is_core(sets[c]@, cores[(#[trigger] mapping[c]) as int]@)
    &&& forall|m: int, n: int|
        0 <= m < n < cores.len() ==> (#[trigger] cores[m])@ != (#[trigger] cores[n])@
}

/// One more item set joins its group, old or new.
proof fn lemma_merge_step(
    sets: Seq<Vec<Lr1Item>>,
    done: int,
    states: Seq<Vec<Lr1Item>>,
    cores: Seq<Vec<(u32, u32)>>,
    mapping: Seq<u32>,
    group: u32,
    after: Seq<Vec<Lr1Item>>,
    after_cores: Seq<Vec<(u32, u32)>>,
)
    requires
        merging(sets, done, states, cores, mapping),
        done < sets.len(),
        after.len() == after_cores.len(),
        group < after.len() <= u32::MAX + 1,
        after.len() == states.len() || (after.len() == states.len() + 1 && group == states.len()),
        forall|m: int| 0 <= m < cores.len() ==> after_cores[m] == #[trigger] cores[m],
        is_core(sets[done]@, after_cores[group as int]@),
        group == states.len() ==> forall|m: int|
            0 <= m < cores.len() ==> (#[trigger] cores[m])@ != after_cores[group as int]@,
        forall|m: int| 0 <= m < states.len() && m != group ==> after[m] == #[trigger] states[m],
        item_sets::items_ascend(after[group as int]@),
        forall|item: Lr1Item| #[trigger]
            after[group as int]@.contains(item) <==> (group < states.len() && states[
            group as int]@.contains(item)) || sets[done]@.contains(item),
    ensures
        merging(sets, done + 1, after, after_cores, mapping.push(group)),
{
    reveal(merging);
    reveal(merged_exact);
    let old_sets = sets.take(done);
    let new_sets = sets.take(done + 1);
    let map2 = mapping.push(group);
    assert(new_sets =~= old_sets.push(sets[done]));
    assert forall|c: int| 0 <= c < done + 1 implies is_core(
        sets[c]@,
        after_cores[(#[trigger] map2[c]) as int]@,
    ) by {
        if c < done {
            assert(map2[c] == mapping[c]);
            assert(after_cores[mapping[c] as int] == cores[mapping[c] as int]);
        }
    }
    assert forall|m: int, n: int| 0 <= m < n < after_cores.len() implies (
    #[trigger] after_cores[m])@ != (#[trigger] after_cores[n])@ by {
        assert(after_cores[m] == cores[m]);
        if n < cores.len() {
            assert(after_cores[n] == cores[n]);
        }
    }
    assert forall|c: int| 0 <= c < map2.len() implies (#[trigger] map2[c]) < after.len() by {
        if c < done {
            assert(map2[c] == mapping[c]);
        }
    }
    assert(map2[0] == 0) by {
        if done > 0 {
            assert(map2[0] == mapping[0]);
        } else {
            if states.len() > 0 {
                assert(has_member(mapping, 0));
            }
        }
    }
    assert forall|c: int, item: Lr1Item|
        0 <= c < map2.len() && #[trigger] new_sets[c]@.contains(item) implies after[
    map2[c] as int]@.contains(item) by {
        if c < done {
            assert(new_sets[c] == old_sets[c]);
            assert(map2[c] == mapping[c]);
            assert(states[mapping[c] as int]@.contains(item));
            if mapping[c] != group {
                assert(after[mapping[c] as int] == states[mapping[c] as int]);
            }
        }
    }
    assert forall|m: int, item: Lr1Item|
        0 <= m < after.len() && #[trigger] after[m]@.contains(item) implies from_set(
        new_sets,
        map2,
        m,
        item,
    ) by {
        if m == group && sets[done]@.contains(item) {
            assert(map2[done] == m);
            assert(new_sets[done]@.contains(item));
        } else {
            if m != group {
                assert(after[m] == states[m]);
            }
            assert(states[m]@.contains(item));
            assert(from_set(old_sets, mapping, m, item));
            let c = choose|c: int|
                0 <= c < mapping.len() && #[trigger] mapping[c] == m && old_sets[c]@.contains(item);
            assert(map2[c] == m);
            assert(new_sets[c] == old_sets[c]);
        }
    }
    assert forall|m: int| 0 <= m < after.len() implies item_sets::items_ascend(
        (#[trigger] after[m])@,
    ) by {
        if m != group {
            assert(after[m] == states[m]);
        }
    }
    assert forall|c: int, d: int| 0 <= c < map2.len() && 0 <= d < map2.len() implies (
    #[trigger] map2[c] == #[trigger] map2[d] <==> same_core(new_sets[c]@, new_sets[d]@)) by {
        let x = after_cores[map2[c] as int]@;
        let y = after_cores[map2[d] as int]@;
        assert(is_core(sets[c]@, x));
        assert(is_core(sets[d]@, y));
        lemma_cores(sets[c]@, sets[d]@, x, y);
        assert(new_sets[c] == sets[c] && new_sets[d] == sets[d]);
        if map2[c] < map2[d] {
            assert(after_cores[map2[c] as int]@ != after_cores[map2[d] as int]@);
        } else if map2[d] < map2[c] {
            assert(after_cores[map2[d] as int]@ != after_cores[map2[c] as int]@);
        }
    }
    assert forall|m: int| 0 <= m < after.len() implies has_member(map2, m) by {
        if m == group {
            assert(map2[done] == m);
        } else {
            assert(has_member(mapping, m));
            let c = choose|c: int| 0 <= c < mapping.len() && #[trigger] mapping[c] == m;
            assert(map2[c] == m);
        }
    }
}

/// Merges the item sets with the same cores.
fn merge_cores(
    grammar: &LrGrammar,
    canonical: &Canonical,
    limits: &CompileLimits,
) -> (result: Result<(Vec<Vec<Lr1Item>>, Vec<u32>), CompileError>)
    requires
        canonical.exact(grammar),
    ensures
        match result {
            Ok(merged) => merged_exact(canonical.states@, merged.0@, merged.1@)
                && merged.0@.len() <= limits.max_lr_states,
            Err(error) => merge_error(error, canonical, limits),
        },
{
    let ghost sets = canonical.states@;
    let mut states: Vec<Vec<Lr1Item>> = Vec::new();
    let mut cores: Vec<Vec<(u32, u32)>> = Vec::new();
    let mut mapping: Vec<u32> = Vec::new();
    let mut index: FxHashMap<u32, Vec<u32>> = fx::map_new();
    proof {
        reveal(merging);
        reveal(merged_exact);
        reveal(indexed);
        assert(sets.take(0) =~= Seq::empty());
    }
    while mapping.len() < canonical.states.len()
        invariant
            states@.len() <= limits.max_lr_states,
            canonical.exact(grammar),
            sets == canonical.states@,
            merging(sets, mapping@.len() as int, states@, cores@, mapping@),
            indexed(cores@, index@),
            states@.len() == cores@.len() <= u32::MAX + 1,
            states@.len() <= mapping@.len() <= sets.len(),
        decreases sets.len() - mapping@.len(),
    {
        let done: usize = mapping.len();
        let set = &canonical.states[done];
        proof {
            canonical::lemma_state_items(grammar, sets, done as int);
        }
        let core = core_of(set);
        let ghost states_before = states@;
        let ghost cores_before = cores@;
        let ghost core_view = core@;
        let group = match find_group(&cores, &index, &core) {
            Some(group) => group,
            None => {
                let count: usize = states.len();
                match enforce_compile_limit(
                    CompileStage::LalrMerge,
                    count.saturating_add(1),
                    limits.max_lr_states,
                ) {
                    Ok(()) => {},
                    Err(error) => {
                        return Err(error);
                    },
                }
                if count > u32::MAX as usize {
                    return Err(
                        CompileError::ResourceLimitExceeded {
                            stage: CompileStage::LalrMerge,
                            observed: count,
                            limit: u32::MAX as usize,
                        },
                    );
                }
                let group: u32 = count as u32;
                let code = code_pairs(&core);
                cores.push(core);
                assert(cores@.drop_last() =~= cores_before);
                note_group(&cores, &mut index, code, group);
                states.push(Vec::new());
                group
            },
        };
        assert(item_sets::items_ascend(states@[group as int]@)) by {
            reveal(merging);
            reveal(merged_exact);
            if group < states_before.len() {
                assert(states@[group as int] == states_before[group as int]);
            }
        }
        add_items(&mut states[group as usize], set);
        proof {
            assert(cores@[group as int]@ == core_view);
            lemma_merge_step(
                sets,
                done as int,
                states_before,
                cores_before,
                mapping@,
                group,
                states@,
                cores@,
            );
        }
        mapping.push(group);
    }
    proof {
        reveal(merging);
        assert(sets.take(sets.len() as int) =~= sets);
    }
    Ok((states, mapping))
}

/// Whether an error says that there are too many states, and there are.
pub open spec fn merge_error(
    error: CompileError,
    canonical: &Canonical,
    limits: &CompileLimits,
) -> bool {
    error matches CompileError::ResourceLimitExceeded { stage, observed, limit } && stage
        == CompileStage::LalrMerge && (limit == limits.max_lr_states || limit == u32::MAX)
        && observed == limit + 1 && canonical.states@.len() > limit
}

/// Seeds with the same cores have closures with the same cores.
proof fn lemma_core_closure(
    rules: Seq<Rule>,
    nullable: Seq<bool>,
    seed: Seq<Lr1Item>,
    other: Seq<Lr1Item>,
    items: Seq<Lr1Item>,
    n: nat,
    item: Lr1Item,
)
    requires
        item_sets::is_closure(rules, nullable, other, items),
        forall|production: u32, dot: u32| #[trigger]
            holds_core(seed, production, dot) ==> holds_core(other, production, dot),
        item_sets::closed_within(rules, nullable, seed, n, item),
    ensures
        holds_core(items, item.production, item.dot),
    decreases n,
{
    if seed.contains(item) {
        assert(item == (Lr1Item {
            production: item.production,
            dot: item.dot,
            lookahead: item.lookahead,
        }));
        assert(holds_core(seed, item.production, item.dot));
        let la = choose|la: Lookahead| #[trigger]
            other.contains(
                Lr1Item { production: item.production, dot: item.dot, lookahead: la },
            );
        let found = Lr1Item { production: item.production, dot: item.dot, lookahead: la };
        assert(other.contains(found));
        assert(items.contains(found));
    } else {
        let before = choose|before: Lr1Item| #[trigger]
            lr::brings(rules, nullable, before, item) && item_sets::closed_within(
                rules,
                nullable,
                seed,
                (n - 1) as nat,
                before,
            );
        lemma_core_closure(rules, nullable, seed, other, items, (n - 1) as nat, before);
        let la = choose|la: Lookahead| #[trigger]
            items.contains(
                Lr1Item { production: before.production, dot: before.dot, lookahead: la },
            );
        let twin = Lr1Item { production: before.production, dot: before.dot, lookahead: la };
        let tail = rules[before.production as int].rhs.skip(before.dot + 1);
        assert(items.contains(twin));
        let started = match item.lookahead {
            Lookahead::Terminal(t) => lr::can_start(rules, nullable, tail, t),
            Lookahead::Eof => false,
        };
        if started {
            assert(lr::ahead(rules, nullable, twin, item.lookahead));
            assert(lr::brings(rules, nullable, twin, item));
            assert(items.contains(item));
            assert(item == (Lr1Item {
                production: item.production,
                dot: item.dot,
                lookahead: item.lookahead,
            }));
        } else {
            let found = Lr1Item { production: item.production, dot: item.dot, lookahead: la };
            assert(lr::ahead(rules, nullable, twin, la));
            assert(lr::brings(rules, nullable, twin, found));
            assert(items.contains(found));
        }
    }
}

/// Successors of lists with the same cores have cores within one another.
proof fn lemma_core_successor(
    rules: Seq<Rule>,
    nullable: Seq<bool>,
    a: Seq<Lr1Item>,
    b: Seq<Lr1Item>,
    symbol: Symbol,
    x: Seq<Lr1Item>,
    y: Seq<Lr1Item>,
    production: u32,
    dot: u32,
)
    requires
        same_core(a, b),
        item_sets::is_successor(rules, nullable, a, symbol, x),
        item_sets::is_successor(rules, nullable, b, symbol, y),
        holds_core(x, production, dot),
    ensures
        holds_core(y, production, dot),
{
    reveal(item_sets::is_successor);
    let seed = choose|seed: Seq<Lr1Item>| #[trigger]
        item_sets::is_moved(rules, a, symbol, seed) && item_sets::is_closure(
            rules,
            nullable,
            seed,
            x,
        );
    let other = choose|other: Seq<Lr1Item>| #[trigger]
        item_sets::is_moved(rules, b, symbol, other) && item_sets::is_closure(
            rules,
            nullable,
            other,
            y,
        );
    assert forall|p: u32, d: u32| #[trigger] holds_core(seed, p, d) implies holds_core(
        other,
        p,
        d,
    ) by {
        let la = choose|la: Lookahead| #[trigger]
            seed.contains(Lr1Item { production: p, dot: d, lookahead: la });
        let item = Lr1Item { production: p, dot: d, lookahead: la };
        let z = choose|z: int| 0 <= z < seed.len() && seed[z] == item;
        assert(item_sets::moved_from(rules, a, symbol, seed[z]));
        let was = choose|was: Lr1Item| #[trigger]
            a.contains(was) && lr::after_dot(rules, was) == Some(symbol) && was.dot < u32::MAX
                && item == lr::moved(was);
        assert(was == (Lr1Item {
            production: was.production,
            dot: was.dot,
            lookahead: was.lookahead,
        }));
        assert(holds_core(a, was.production, was.dot));
        let lb = choose|lb: Lookahead| #[trigger]
            b.contains(Lr1Item { production: was.production, dot: was.dot, lookahead: lb });
        let twin = Lr1Item { production: was.production, dot: was.dot, lookahead: lb };
        assert(b.contains(twin) && lr::after_dot(rules, twin) == Some(symbol));
        assert(other.contains(lr::moved(twin)));
        assert(lr::moved(twin) == (Lr1Item { production: p, dot: d, lookahead: lb }));
    }
    let la = choose|la: Lookahead| #[trigger]
        x.contains(Lr1Item { production, dot, lookahead: la });
    let item = Lr1Item { production, dot, lookahead: la };
    assert(x.contains(item));
    assert(item_sets::in_closure(rules, nullable, seed, item));
    let n = choose|n: nat| item_sets::closed_within(rules, nullable, seed, n, item);
    lemma_core_closure(rules, nullable, seed, other, y, n, item);
}

/// Item sets with the same cores have successors with the same cores.
proof fn lemma_successors_agree(
    grammar: &LrGrammar,
    canonical: &Canonical,
    c: int,
    d: int,
    e: int,
    f: int,
)
    requires
        canonical.exact(grammar),
        0 <= c < canonical.states@.len(),
        0 <= d < canonical.states@.len(),
        0 <= e < canonical.edges@[c]@.len(),
        0 <= f < canonical.edges@[d]@.len(),
        same_core(canonical.states@[c]@, canonical.states@[d]@),
        canonical.edges@[c]@[e].0 == canonical.edges@[d]@[f].0,
    ensures
        canonical.edges@[c]@[e].1 < canonical.states@.len(),
        canonical.edges@[d]@[f].1 < canonical.states@.len(),
        same_core(
            canonical.states@[canonical.edges@[c]@[e].1 as int]@,
            canonical.states@[canonical.edges@[d]@[f].1 as int]@,
        ),
{
    let rules = grammar.rules();
    let nullable = grammar.nullable@;
    let states = canonical.states@;
    let a = states[c]@;
    let b = states[d]@;
    let symbol = canonical.edges@[c]@[e].0;
    assert(canonical::row_exact(grammar, states, c, canonical.edges@[c]@));
    assert(canonical::row_exact(grammar, states, d, canonical.edges@[d]@));
    assert(canonical::edge_exact(grammar, states, c, canonical.edges@[c]@[e]));
    assert(canonical::edge_exact(grammar, states, d, canonical.edges@[d]@[f]));
    let x = states[canonical.edges@[c]@[e].1 as int]@;
    let y = states[canonical.edges@[d]@[f].1 as int]@;
    assert forall|production: u32, dot: u32|
        #![trigger holds_core(x, production, dot)]
        #![trigger holds_core(y, production, dot)]
        holds_core(x, production, dot) <==> holds_core(y, production, dot) by {
        if holds_core(x, production, dot) {
            lemma_core_successor(rules, nullable, a, b, symbol, x, y, production, dot);
        }
        if holds_core(y, production, dot) {
            assert(same_core(b, a));
            lemma_core_successor(rules, nullable, b, a, symbol, y, x, production, dot);
        }
    }
}

/// Where a symbol leads, if the row says so.
pub open spec fn row_target(row: Seq<(Symbol, u32)>, symbol: Symbol) -> Option<u32>
    decreases row.len(),
{
    if row.len() == 0 {
        None
    } else if row[0].0 == symbol {
        Some(row[0].1)
    } else {
        row_target(row.skip(1), symbol)
    }
}

/// Where a symbol leads is the first entry for it.
proof fn lemma_row_target(row: Seq<(Symbol, u32)>, symbol: Symbol, place: int)
    requires
        0 <= place <= row.len(),
        forall|x: int| 0 <= x < place ==> (#[trigger] row[x]).0 != symbol,
    ensures
        place == row.len() ==> row_target(row, symbol) is None,
        place < row.len() && row[place].0 == symbol ==> row_target(row, symbol) == Some(
            row[place].1,
        ),
    decreases row.len(),
{
    if row.len() > 0 && place > 0 {
        assert(row[0].0 != symbol);
        let rest = row.skip(1);
        assert forall|x: int| 0 <= x < place - 1 implies (#[trigger] rest[x]).0 != symbol by {
            assert(rest[x] == row[x + 1]);
        }
        lemma_row_target(rest, symbol, place - 1);
        if place < row.len() {
            assert(rest[place - 1] == row[place]);
        }
    }
}

/// Where a symbol leads, if the row says so.
pub fn find_target(row: &Vec<(Symbol, u32)>, symbol: Symbol) -> (target: Option<u32>)
    ensures
        target == row_target(row@, symbol),
{
    let mut place: usize = 0;
    while place < row.len()
        invariant
            place <= row@.len(),
            forall|x: int| 0 <= x < place ==> (#[trigger] row@[x]).0 != symbol,
        decreases row@.len() - place,
    {
        if row[place].0 == symbol {
            proof {
                lemma_row_target(row@, symbol, place as int);
            }
            return Some(row[place].1);
        }
        place += 1;
    }
    proof {
        lemma_row_target(row@, symbol, place as int);
    }
    None
}

/// An entry at the end of a row is found, unless there is one before it.
pub proof fn lemma_row_push(row: Seq<(Symbol, u32)>, entry: (Symbol, u32), symbol: Symbol)
    ensures
        row_target(row.push(entry), symbol) == (match row_target(row, symbol) {
            Some(target) => Some(target),
            None => if entry.0 == symbol {
                Some(entry.1)
            } else {
                None
            },
        }),
    decreases row.len(),
{
    let all = row.push(entry);
    if row.len() == 0 {
        assert(all.skip(1) =~= Seq::empty());
        assert(all[0] == entry);
        assert(row_target(all.skip(1), symbol) is None);
    } else {
        lemma_row_push(row.skip(1), entry, symbol);
        assert(all.skip(1) =~= row.skip(1).push(entry));
        assert(all[0] == row[0]);
    }
}

/// States with merged lookaheads, and where each symbol leads from each of them.
pub struct Merged {
    pub states: Vec<Vec<Lr1Item>>,
    pub mapping: Vec<u32>,
    pub edges: Vec<Vec<(Symbol, u32)>>,
}

/// Whether a symbol leads from a state to where it leads from an item set of it.
pub open spec fn follows_set(
    canonical: &Canonical,
    mapping: Seq<u32>,
    m: int,
    symbol: Symbol,
    target: u32,
) -> bool {
    exists|c: int, e: int|
        #![trigger canonical.edges@[c]@[e]]
        0 <= c < mapping.len() && mapping[c] == m && 0 <= e < canonical.edges@[c]@.len()
            && canonical.edges@[c]@[e].0 == symbol && mapping[canonical.edges@[c]@[e].1 as int]
            == target
}

impl Merged {
    /// Whether the states are the merged item sets, and symbols lead as they do between these.
    pub open spec fn exact(&self, canonical: &Canonical) -> bool {
        &&& merged_exact(canonical.states@, self.states@, self.mapping@)
        &&& self.edges@.len() == self.states@.len()
        &&& forall|m: int, symbol: Symbol|
            #![trigger row_target(self.edges@[m]@, symbol)]
            0 <= m < self.edges@.len() ==> (row_target(self.edges@[m]@, symbol) matches Some(
                target,
            ) ==> follows_set(canonical, self.mapping@, m, symbol, target))
        &&& forall|c: int, e: int|
            #![trigger canonical.edges@[c]@[e]]
            0 <= c < self.mapping@.len() && 0 <= e < canonical.edges@[c]@.len() ==> row_target(
                self.edges@[self.mapping@[c] as int]@,
                canonical.edges@[c]@[e].0,
            ) == Some(self.mapping@[canonical.edges@[c]@[e].1 as int])
    }
}

/// Merges the item sets with the same cores, and their edges.
pub fn merge(grammar: &LrGrammar, canonical: &Canonical, limits: &CompileLimits) -> (result: Result<
    Merged,
    CompileError,
>)
    requires
        canonical.exact(grammar),
    ensures
        match result {
            Ok(merged) => merged.exact(canonical) && merged.states@.len() <= limits.max_lr_states,
            Err(error) => merge_error(error, canonical, limits),
        },
{
    let (states, mapping) = match merge_cores(grammar, canonical, limits) {
        Ok(merged) => merged,
        Err(error) => {
            return Err(error);
        },
    };
    let ghost map = mapping@;
    proof {
        reveal(merged_exact);
    }
    let mut edges: Vec<Vec<(Symbol, u32)>> = count::empty_lists(states.len());
    let mut set: usize = 0;
    while set < canonical.edges.len()
        invariant
            canonical.exact(grammar),
            merged_exact(canonical.states@, states@, mapping@),
            map == mapping@,
            map.len() == canonical.states@.len() == canonical.edges@.len(),
            forall|c: int| 0 <= c < map.len() ==> (#[trigger] map[c]) < states@.len(),
            edges@.len() == states@.len(),
            set <= canonical.edges@.len(),
            forall|m: int, symbol: Symbol|
                #![trigger row_target(edges@[m]@, symbol)]
                0 <= m < edges@.len() ==> (row_target(edges@[m]@, symbol) matches Some(target)
                    ==> follows_set(canonical, map, m, symbol, target)),
            forall|c: int, e: int|
                #![trigger canonical.edges@[c]@[e]]
                0 <= c < set && 0 <= e < canonical.edges@[c]@.len() ==> row_target(
                    edges@[map[c] as int]@,
                    canonical.edges@[c]@[e].0,
                ) == Some(map[canonical.edges@[c]@[e].1 as int]),
        decreases canonical.edges@.len() - set,
    {
        let row = &canonical.edges[set];
        let source: usize = mapping[set] as usize;
        assert(map[set as int] < states@.len());
        assert(canonical::row_exact(grammar, canonical.states@, set as int, row@));
        let mut place: usize = 0;
        while place < row.len()
            invariant
                canonical.exact(grammar),
                merged_exact(canonical.states@, states@, mapping@),
                map == mapping@,
                map.len() == canonical.states@.len() == canonical.edges@.len(),
                forall|c: int| 0 <= c < map.len() ==> (#[trigger] map[c]) < states@.len(),
                edges@.len() == states@.len(),
                set < canonical.edges@.len(),
                *row == canonical.edges@[set as int],
                source == map[set as int],
                source < edges@.len(),
                place <= row@.len(),
                forall|m: int, symbol: Symbol|
                    #![trigger row_target(edges@[m]@, symbol)]
                    0 <= m < edges@.len() ==> (row_target(edges@[m]@, symbol) matches Some(target)
                        ==> follows_set(canonical, map, m, symbol, target)),
                forall|c: int, e: int|
                    #![trigger canonical.edges@[c]@[e]]
                    0 <= c < set && 0 <= e < canonical.edges@[c]@.len() ==> row_target(
                        edges@[map[c] as int]@,
                        canonical.edges@[c]@[e].0,
                    ) == Some(map[canonical.edges@[c]@[e].1 as int]),
                forall|e: int|
                    0 <= e < place ==> row_target(
                        edges@[source as int]@,
                        (#[trigger] canonical.edges@[set as int]@[e]).0,
                    ) == Some(map[canonical.edges@[set as int]@[e].1 as int]),
            decreases row@.len() - place,
        {
            let (symbol, target) = row[place];
            let ghost before = edges@;
            proof {
                lemma_successors_agree(
                    grammar,
                    canonical,
                    set as int,
                    set as int,
                    place as int,
                    place as int,
                );
                assert(canonical.edges@[set as int]@[place as int] == (symbol, target));
            }
            let next = mapping[target as usize];
            assert(follows_set(canonical, map, source as int, symbol, next));
            match find_target(&edges[source], symbol) {
                Some(existing) => {
                    proof {
                        assert(follows_set(canonical, map, source as int, symbol, existing));
                        let (c, e) = choose|c: int, e: int|
                            #![trigger canonical.edges@[c]@[e]]
                            0 <= c < map.len() && map[c] == source && 0 <= e
                                < canonical.edges@[c]@.len() && canonical.edges@[c]@[e].0 == symbol
                                && map[canonical.edges@[c]@[e].1 as int] == existing;
                        lemma_agree(
                            grammar,
                            canonical,
                            states@,
                            map,
                            c,
                            set as int,
                            e,
                            place as int,
                        );
                    }
                    if existing != next {
                        return Err(
                            CompileError::InternalInvariant {
                                message: "merged LR core has inconsistent transition targets",
                            },
                        );
                    }
                },
                None => {
                    edges[source].push((symbol, next));
                    proof {
                        lemma_edge_added(canonical, map, before, edges@, source as int, symbol, next);
                        assert forall|c: int, e: int|
                            #![trigger canonical.edges@[c]@[e]]
                            0 <= c < set && 0 <= e < canonical.edges@[c]@.len() implies row_target(
                            edges@[map[c] as int]@,
                            canonical.edges@[c]@[e].0,
                        ) == Some(map[canonical.edges@[c]@[e].1 as int]) by {
                            assert(map[c] < states@.len());
                        }
                    }
                },
            }
            place += 1;
        }
        set += 1;
    }
    Ok(Merged { states, mapping, edges })
}

/// An entry for a symbol that had none is found, and every other stays.
proof fn lemma_edge_added(
    canonical: &Canonical,
    map: Seq<u32>,
    before: Seq<Vec<(Symbol, u32)>>,
    after: Seq<Vec<(Symbol, u32)>>,
    source: int,
    symbol: Symbol,
    next: u32,
)
    requires
        0 <= source < before.len(),
        after.len() == before.len(),
        forall|m: int| 0 <= m < before.len() && m != source ==> after[m] == #[trigger] before[m],
        after[source]@ == before[source]@.push((symbol, next)),
        row_target(before[source]@, symbol) is None,
        follows_set(canonical, map, source, symbol, next),
        forall|m: int, x: Symbol|
            #![trigger row_target(before[m]@, x)]
            0 <= m < before.len() ==> (row_target(before[m]@, x) matches Some(target)
                ==> follows_set(canonical, map, m, x, target)),
    ensures
        forall|m: int, x: Symbol|
            #![trigger row_target(after[m]@, x)]
            0 <= m < after.len() ==> (row_target(after[m]@, x) matches Some(target) ==> follows_set(
                canonical,
                map,
                m,
                x,
                target,
            )),
        forall|m: int, x: Symbol|
            #![trigger row_target(after[m]@, x)]
            0 <= m < before.len() && row_target(before[m]@, x) is Some ==> row_target(
                after[m]@,
                x,
            ) == row_target(before[m]@, x),
        row_target(after[source]@, symbol) == Some(next),
{
    lemma_row_push(before[source]@, (symbol, next), symbol);
    assert forall|m: int, x: Symbol|
        #![trigger row_target(after[m]@, x)]
        0 <= m < after.len() implies (row_target(after[m]@, x) matches Some(target) ==> follows_set(
        canonical,
        map,
        m,
        x,
        target,
    )) && (row_target(before[m]@, x) is Some ==> row_target(after[m]@, x) == row_target(
        before[m]@,
        x,
    )) by {
        if m == source {
            lemma_row_push(before[source]@, (symbol, next), x);
        } else {
            assert(after[m] == before[m]);
        }
    }
}

/// Item sets of one state lead to one state on a symbol.
proof fn lemma_agree(
    grammar: &LrGrammar,
    canonical: &Canonical,
    states: Seq<Vec<Lr1Item>>,
    map: Seq<u32>,
    c: int,
    d: int,
    e: int,
    f: int,
)
    requires
        canonical.exact(grammar),
        merged_exact(canonical.states@, states, map),
        0 <= c < map.len(),
        0 <= d < map.len(),
        map[c] == map[d],
        0 <= e < canonical.edges@[c]@.len(),
        0 <= f < canonical.edges@[d]@.len(),
        canonical.edges@[c]@[e].0 == canonical.edges@[d]@[f].0,
    ensures
        map[canonical.edges@[c]@[e].1 as int] == map[canonical.edges@[d]@[f].1 as int],
{
    reveal(merged_exact);
    lemma_successors_agree(grammar, canonical, c, d, e, f);
}

} // verus!
