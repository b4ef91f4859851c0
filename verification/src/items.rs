//! Item kinds, stacks of items lying in the world, and merging stacks.
pub mod inventory;

use vstd::prelude::*;

verus! {

/// Kind of item.
#[derive(Clone, Copy, Debug, PartialEq, Eq, Structural)]
pub enum ItemType {
    BasicSword,
    Apple,
}

/// Most items of a kind that one stack holds.
pub open spec fn max_stack(kind: ItemType) -> u8 {
    match kind {
        ItemType::BasicSword => 1,
        ItemType::Apple => 16,
    }
}

impl ItemType {
    /// Most items of this kind that one stack holds.
    pub fn max(&self) -> (m: u8)
        ensures
            m == max_stack(*self),
    {
        match self {
            ItemType::BasicSword => 1,
            ItemType::Apple => 16,
        }
    }

    /// Path of the image the kind is drawn with.
    pub fn asset_key(&self) -> (key: &'static str)
        ensures
            *self == ItemType::BasicSword ==> key@ == "items/basic_sword.png"@,
            *self == ItemType::Apple ==> key@ == "items/apple.png"@,
    {
        match self {
            ItemType::BasicSword => "items/basic_sword.png",
            ItemType::Apple => "items/apple.png",
        }
    }
}

/// A number of items of one kind.
#[derive(Clone, Copy, Debug, PartialEq, Eq, Structural)]
pub struct ItemStack {
    pub kind: ItemType,
    pub count: u8,
}

impl ItemStack {
    /// A stack of `count` items of `kind`; there may be no more than a stack
    /// of that kind holds.
    pub fn new(kind: ItemType, count: u8) -> (stack: ItemStack)
        requires
            count <= max_stack(kind),
        ensures
            stack.kind == kind,
            stack.count == count,
    {
        ItemStack { kind, count }
    }

    /// How many more items the stack has room for.
    pub fn available_item_capacity(&self) -> (room: u8)
        requires
            self.count <= max_stack(self.kind),
        ensures
            room == max_stack(self.kind) - self.count,
    {
        self.kind.max() - self.count
    }
}

/// Items that move from stack `from` into stack `into`.
#[derive(Clone, Copy, Debug, PartialEq, Eq, Structural)]
pub struct StackMerge {
    pub into: usize,
    pub from: usize,
    pub amount: u8,
}

/// How much a stack `b` gives to a stack `a` lying near it: as much of `b` as
/// `a` has room for, when the kinds match; nothing is planned otherwise.
pub open spec fn spec_merge_amount(a: ItemStack, b: ItemStack) -> Option<u8> {
    if a.kind != b.kind {
        None
    } else if b.count < max_stack(a.kind) - a.count {
        Some(b.count)
    } else {
        Some((max_stack(a.kind) - a.count) as u8)
    }
}

/// The merges planned among `stacks`, taking the pairs `(i, j)` with `i < j`
/// ordered by `i`, then `j`, after the pairs before `(i, j)` in that order.
/// A pair is merged when `near[i][j]` holds and the amount is defined.
pub open spec fn planned_merges_upto(stacks: Seq<ItemStack>, near: Seq<Seq<bool>>, i: int, j: int) -> Seq<StackMerge>
    decreases i, j,
{
    if i <= 0 && j <= 1 || i < 0 || j < 0 {
        Seq::empty()
    } else if j <= i + 1 {
        planned_merges_upto(stacks, near, i - 1, stacks.len() as int)
    } else {
        let before = planned_merges_upto(stacks, near, i, j - 1);
        let a = stacks[i];
        let b = stacks[j - 1];
        if near[i][j - 1] && spec_merge_amount(a, b) is Some {
            before.push(StackMerge { into: i as usize, from: (j - 1) as usize, amount: spec_merge_amount(a, b).unwrap() })
        } else {
            before
        }
    }
}

/// All merges planned among `stacks`.
pub open spec fn planned_merges(stacks: Seq<ItemStack>, near: Seq<Seq<bool>>) -> Seq<StackMerge> {
    planned_merges_upto(stacks, near, stacks.len() - 1, stacks.len() as int)
}

/// Every stack holds no more than its kind allows.
pub open spec fn stacks_within_max(stacks: Seq<ItemStack>) -> bool {
    forall|i: int| 0 <= i < stacks.len() ==> (#[trigger] stacks[i]).count <= max_stack(stacks[i].kind)
}

/// Plans how stacks lying near each other merge, each pair once, from the
/// counts as they are before any merge. `near[i][j]` tells whether stacks
/// `i` and `j` lie close enough to merge.
pub fn plan_stack_merges(stacks: &Vec<ItemStack>, near: &Vec<Vec<bool>>) -> (plan: Vec<StackMerge>)
    requires
        stacks_within_max(stacks@),
        near@.len() == stacks@.len(),
        forall|i: int| 0 <= i < near@.len() ==> (#[trigger] near@[i])@.len() == stacks@.len(),
    ensures
        plan@ == planned_merges(stacks@, near@.map_values(|r: Vec<bool>| r@)),
{
    let ghost nv = near@.map_values(|r: Vec<bool>| r@);
    let n = stacks.len();
    let mut plan: Vec<StackMerge> = Vec::new();
    if n < 2 {
        proof {
            assert(planned_merges(stacks@, nv) == Seq::<StackMerge>::empty());
        }
        return plan;
    }
    let mut i: usize = 0;
    while i + 1 < n
        invariant
            n == stacks@.len(),
            n >= 2,
            i + 1 <= n,
            stacks_within_max(stacks@),
            near@.len() == n,
            forall|r: int| 0 <= r < near@.len() ==> (#[trigger] near@[r])@.len() == n,
            nv == near@.map_values(|r: Vec<bool>| r@),
            plan@ == planned_merges_upto(stacks@, nv, i - 1, n as int),
        decreases n - i,
    {
        let mut j: usize = i + 1;
        proof {
            assert(planned_merges_upto(stacks@, nv, i as int, j as int) == planned_merges_upto(stacks@, nv, i - 1, n as int));
        }
        while j < n
            invariant
                n == stacks@.len(),
                i + 1 <= j <= n,
                stacks_within_max(stacks@),
                near@.len() == n,
                forall|r: int| 0 <= r < near@.len() ==> (#[trigger] near@[r])@.len() == n,
                nv == near@.map_values(|r: Vec<bool>| r@),
                plan@ == planned_merges_upto(stacks@, nv, i as int, j as int),
            decreases n - j,
        {
            let a = stacks[i];
            let b = stacks[j];
            proof {
                assert(a.count <= max_stack(a.kind));
                assert(nv[i as int] == near@[i as int]@);
            }
            if near[i][j] && a.kind == b.kind {
                let room = a.available_item_capacity();
                let amount = if b.count < room { b.count } else { room };
                plan.push(StackMerge { into: i, from: j, amount });
            }
            j = j + 1;
        }
        i = i + 1;
    }
    proof {
        assert(i + 1 == n);
    }
    plan
}

/// The counts after the merges of `plan` are carried out in order, in
/// unbounded arithmetic. A merge naming a stack that does not exist changes
/// nothing.
pub open spec fn merged_counts(counts: Seq<int>, plan: Seq<StackMerge>) -> Seq<int>
    decreases plan.len(),
{
    if plan.len() == 0 {
        counts
    } else {
        let before = merged_counts(counts, plan.drop_last());
        let m = plan.last();
        if m.into < before.len() && m.from < before.len() {
            before.update(m.into as int, before[m.into as int] + m.amount).update(
                m.from as int,
                before[m.from as int] + (if m.from == m.into { m.amount as int } else { 0 }) - m.amount,
            )
        } else {
            before
        }
    }
}

/// Carrying out `plan` in order keeps every count within `0..=255`, and every
/// merge names stacks that exist.
pub open spec fn merges_fit(counts: Seq<int>, plan: Seq<StackMerge>) -> bool
    decreases plan.len(),
{
    if plan.len() == 0 {
        forall|i: int| 0 <= i < counts.len() ==> 0 <= #[trigger] counts[i] <= 255
    } else {
        let m = plan.last();
        let before = merged_counts(counts, plan.drop_last());
        let after = merged_counts(counts, plan);
        &&& merges_fit(counts, plan.drop_last())
        &&& m.into < counts.len()
        &&& m.from < counts.len()
        &&& 0 <= before[m.into as int] + m.amount <= 255
        &&& forall|i: int| 0 <= i < after.len() ==> 0 <= #[trigger] after[i] <= 255
    }
}

/// The counts of some stacks, as integers.
pub open spec fn counts_of(stacks: Seq<ItemStack>) -> Seq<int> {
    Seq::new(stacks.len(), |i: int| stacks[i].count as int)
}

proof fn lemma_merged_len(counts: Seq<int>, plan: Seq<StackMerge>)
    ensures
        merged_counts(counts, plan).len() == counts.len(),
    decreases plan.len(),
{
    if plan.len() > 0 {
        lemma_merged_len(counts, plan.drop_last());
    }
}

/// The stacks that a merge of `plan` leaves empty, in the order of the
/// merges: after each merge, the stack merged from when its count is zero.
pub open spec fn emptied_stacks(counts: Seq<int>, plan: Seq<StackMerge>) -> Seq<usize>
    decreases plan.len(),
{
    if plan.len() == 0 {
        Seq::empty()
    } else {
        let before = emptied_stacks(counts, plan.drop_last());
        let m = plan.last();
        if merged_counts(counts, plan)[m.from as int] == 0 {
            before.push(m.from)
        } else {
            before
        }
    }
}

/// Carries out the planned merges in order: the stack merged into gains the
/// amount and the stack merged from loses it. Returns, in order, the stacks
/// left empty by a merge, which are to be removed.
pub fn apply_stack_merges(stacks: &mut Vec<ItemStack>, plan: &Vec<StackMerge>) -> (emptied: Vec<usize>)
    requires
        merges_fit(counts_of(old(stacks)@), plan@),
    ensures
        final(stacks)@.len() == old(stacks)@.len(),
        counts_of(final(stacks)@) == merged_counts(counts_of(old(stacks)@), plan@),
        forall|i: int| 0 <= i < final(stacks)@.len() ==> (#[trigger] final(stacks)@[i]).kind == old(stacks)@[i].kind,
        emptied@ == emptied_stacks(counts_of(old(stacks)@), plan@),
        forall|k: int| 0 <= k < emptied@.len() ==> #[trigger] emptied@[k] < final(stacks)@.len(),
{
    let ghost c0 = counts_of(stacks@);
    let mut emptied: Vec<usize> = Vec::new();
    let mut k: usize = 0;
    proof {
        assert(plan@.subrange(0, 0) =~= Seq::<StackMerge>::empty());
        assert(counts_of(stacks@) =~= c0);
    }
    while k < plan.len()
        invariant
            k <= plan@.len(),
            stacks@.len() == old(stacks)@.len(),
            c0 == counts_of(old(stacks)@),
            merges_fit(c0, plan@),
            counts_of(stacks@) == merged_counts(c0, plan@.subrange(0, k as int)),
            forall|i: int| 0 <= i < stacks@.len() ==> (#[trigger] stacks@[i]).kind == old(stacks)@[i].kind,
            forall|e: int| 0 <= e < emptied@.len() ==> #[trigger] emptied@[e] < stacks@.len(),
            emptied@ == emptied_stacks(c0, plan@.subrange(0, k as int)),
        decreases plan@.len() - k,
    {
        let m = plan[k];
        let ghost done = plan@.subrange(0, k as int);
        let ghost upto = plan@.subrange(0, k + 1);
        proof {
            assert(upto.drop_last() =~= done);
            assert(upto.last() == m);
            lemma_merges_fit_prefix(c0, plan@, k + 1);
            lemma_merged_len(c0, done);
            lemma_merged_len(c0, upto);
        }
        let mut a = stacks[m.into];
        a.count = a.count + m.amount;
        stacks.set(m.into, a);
        let mut b = stacks[m.from];
        proof {
            let after = merged_counts(c0, upto);
            assert(0 <= after[m.from as int] <= 255);
        }
        b.count = b.count - m.amount;
        stacks.set(m.from, b);
        proof {
            assert(counts_of(stacks@) =~= merged_counts(c0, upto));
            assert(counts_of(stacks@)[m.from as int] == stacks@[m.from as int].count);
        }
        if stacks[m.from].count == 0 {
            emptied.push(m.from);
        }
        k = k + 1;
    }
    proof {
        assert(plan@.subrange(0, k as int) =~= plan@);
    }
    emptied
}

/// Whether carrying out `plan` on `stacks` keeps every count within a byte
/// and names only existing stacks, as `apply_stack_merges` requires.
pub fn plan_fits(stacks: &Vec<ItemStack>, plan: &Vec<StackMerge>) -> (fits: bool)
    ensures
        fits == merges_fit(counts_of(stacks@), plan@),
{
    let ghost c0 = counts_of(stacks@);
    let mut cur: Vec<i64> = Vec::new();
    let mut i: usize = 0;
    while i < stacks.len()
        invariant
            i <= stacks@.len(),
            c0 == counts_of(stacks@),
            cur@.len() == i,
            forall|j: int| 0 <= j < i ==> #[trigger] cur@[j] == c0[j],
        decreases stacks@.len() - i,
    {
        cur.push(stacks[i].count as i64);
        i = i + 1;
    }
    let mut k: usize = 0;
    proof {
        assert(plan@.subrange(0, 0) =~= Seq::<StackMerge>::empty());
    }
    while k < plan.len()
        invariant
            k <= plan@.len(),
            c0 == counts_of(stacks@),
            cur@.len() == c0.len(),
            merges_fit(c0, plan@.subrange(0, k as int)),
            merged_counts(c0, plan@.subrange(0, k as int)).len() == c0.len(),
            forall|j: int| 0 <= j < cur@.len() ==> #[trigger] cur@[j] == merged_counts(c0, plan@.subrange(0, k as int))[j],
        decreases plan@.len() - k,
    {
        let m = plan[k];
        let ghost done = plan@.subrange(0, k as int);
        let ghost upto = plan@.subrange(0, k + 1);
        proof {
            assert(upto.drop_last() =~= done);
            assert(upto.last() == m);
            lemma_merged_len(c0, upto);
        }
        if m.into >= cur.len() || m.from >= cur.len() {
            proof {
                if merges_fit(c0, plan@) {
                    lemma_merges_fit_prefix(c0, plan@, k + 1);
                }
            }
            return false;
        }
        let a = cur[m.into] + m.amount as i64;
        proof {
            assert(0 <= merged_counts(c0, done)[m.into as int] <= 255);
        }
        if a > 255 {
            proof {
                if merges_fit(c0, plan@) {
                    lemma_merges_fit_prefix(c0, plan@, k + 1);
                }
            }
            return false;
        }
        cur.set(m.into, a);
        let b = cur[m.from] - m.amount as i64;
        let ghost after = merged_counts(c0, upto);
        proof {
            assert(after[m.from as int] == b);
            assert(after[m.into as int] == cur@[m.into as int] || m.from == m.into);
        }
        if b < 0 {
            proof {
                if merges_fit(c0, plan@) {
                    lemma_merges_fit_prefix(c0, plan@, k + 1);
                    assert(0 <= after[m.from as int]);
                }
            }
            return false;
        }
        cur.set(m.from, b);
        proof {
            assert forall|j: int| 0 <= j < after.len() implies 0 <= #[trigger] after[j] <= 255 by {
                if j != m.into && j != m.from {
                    assert(after[j] == merged_counts(c0, done)[j]);
                }
            }
            assert forall|j: int| 0 <= j < cur@.len() implies #[trigger] cur@[j] == after[j] by {
                if j != m.into && j != m.from {
                    assert(after[j] == merged_counts(c0, done)[j]);
                }
            }
        }
        k = k + 1;
    }
    proof {
        assert(plan@.subrange(0, k as int) =~= plan@);
    }
    true
}

proof fn lemma_merges_fit_prefix(counts: Seq<int>, plan: Seq<StackMerge>, n: int)
    requires
        merges_fit(counts, plan),
        0 <= n <= plan.len(),
    ensures
        merges_fit(counts, plan.subrange(0, n)),
    decreases plan.len() - n,
{
    if n < plan.len() {
        assert(plan.drop_last() =~= plan.subrange(0, plan.len() - 1));
        lemma_merges_fit_prefix(counts, plan.drop_last(), n);
        assert(plan.drop_last().subrange(0, n) =~= plan.subrange(0, n));
    } else {
        assert(plan.subrange(0, n) =~= plan);
    }
}

/// Sum of a sequence of integers.
pub open spec fn total(s: Seq<int>) -> int
    decreases s.len(),
{
    if s.len() == 0 {
        0
    } else {
        total(s.drop_last()) + s.last()
    }
}

proof fn lemma_total_update(s: Seq<int>, i: int, v: int)
    requires
        0 <= i < s.len(),
    ensures
        total(s.update(i, v)) == total(s) - s[i] + v,
    decreases s.len(),
{
    if i == s.len() - 1 {
        assert(s.update(i, v).drop_last() =~= s.drop_last());
    } else {
        lemma_total_update(s.drop_last(), i, v);
        assert(s.update(i, v).drop_last() =~= s.drop_last().update(i, v));
    }
}

/// Merging stacks neither creates nor destroys items: the total count is the
/// same before and after any plan whose merges name existing stacks.
pub proof fn lemma_merges_conserve_items(counts: Seq<int>, plan: Seq<StackMerge>)
    requires
        forall|k: int| 0 <= k < plan.len() ==> (#[trigger] plan[k]).into < counts.len() && plan[k].from < counts.len(),
    ensures
        total(merged_counts(counts, plan)) == total(counts),
    decreases plan.len(),
{
    if plan.len() > 0 {
        let init = plan.drop_last();
        assert forall|k: int| 0 <= k < init.len() implies (#[trigger] init[k]).into < counts.len() && init[k].from < counts.len() by {
            assert(init[k] == plan[k]);
        }
        lemma_merges_conserve_items(counts, init);
        lemma_merged_len(counts, init);
        let before = merged_counts(counts, init);
        let m = plan.last();
        assert(m == plan[plan.len() - 1]);
        let mid = before.update(m.into as int, before[m.into as int] + m.amount);
        lemma_total_update(before, m.into as int, before[m.into as int] + m.amount);
        lemma_total_update(
            mid,
            m.from as int,
            before[m.from as int] + (if m.from == m.into { m.amount as int } else { 0 }) - m.amount,
        );
    }
}


/// How many items of kind `k` lie in the stacks whose counts are `counts`
/// and whose kinds are `kinds`.
pub open spec fn kind_total(counts: Seq<int>, kinds: Seq<ItemType>, k: ItemType) -> int
    decreases counts.len(),
{
    if counts.len() == 0 {
        0
    } else {
        kind_total(counts.drop_last(), kinds.drop_last(), k) + if kinds[counts.len() - 1] == k {
            counts.last()
        } else {
            0
        }
    }
}

/// The kinds of some stacks.
pub open spec fn kinds_of(stacks: Seq<ItemStack>) -> Seq<ItemType> {
    Seq::new(stacks.len(), |i: int| stacks[i].kind)
}

proof fn lemma_kind_total_update(s: Seq<int>, kinds: Seq<ItemType>, i: int, v: int, k: ItemType)
    requires
        0 <= i < s.len(),
        kinds.len() == s.len(),
    ensures
        kind_total(s.update(i, v), kinds, k) == kind_total(s, kinds, k) + if kinds[i] == k {
            v - s[i]
        } else {
            0
        },
    decreases s.len(),
{
    if i == s.len() - 1 {
        assert(s.update(i, v).drop_last() =~= s.drop_last());
    } else {
        lemma_kind_total_update(s.drop_last(), kinds.drop_last(), i, v, k);
        assert(s.update(i, v).drop_last() =~= s.drop_last().update(i, v));
    }
}

/// Every planned merge joins two existing stacks of one kind, the later into
/// the earlier.
pub proof fn lemma_planned_merges_join_one_kind(stacks: Seq<ItemStack>, near: Seq<Seq<bool>>, i: int, j: int)
    requires
        i < stacks.len(),
        j <= stacks.len(),
        stacks.len() <= usize::MAX,
    ensures
        forall|m: int|
            0 <= m < planned_merges_upto(stacks, near, i, j).len() ==> {
                let g = #[trigger] planned_merges_upto(stacks, near, i, j)[m];
                &&& g.into < g.from < stacks.len()
                &&& stacks[g.into as int].kind == stacks[g.from as int].kind
            },
    decreases i, j,
{
    if i <= 0 && j <= 1 || i < 0 || j < 0 {
    } else if j <= i + 1 {
        lemma_planned_merges_join_one_kind(stacks, near, i - 1, stacks.len() as int);
    } else {
        lemma_planned_merges_join_one_kind(stacks, near, i, j - 1);
        let before = planned_merges_upto(stacks, near, i, j - 1);
        let all = planned_merges_upto(stacks, near, i, j);
        assert forall|m: int| 0 <= m < all.len() implies {
            let g = #[trigger] all[m];
            &&& g.into < g.from < stacks.len()
            &&& stacks[g.into as int].kind == stacks[g.from as int].kind
        } by {
            let a = stacks[i];
            let b = stacks[j - 1];
            if near[i][j - 1] && spec_merge_amount(a, b) is Some {
                let g = StackMerge { into: i as usize, from: (j - 1) as usize, amount: spec_merge_amount(a, b).unwrap() };
                assert(all == before.push(g));
                if m < before.len() {
                    assert(all[m] == before[m]);
                } else {
                    assert(all[m] == g);
                    assert(a.kind == b.kind);
                }
            } else {
                assert(all == before);
            }
        }
    }
}

/// Merging never changes how many items of a kind there are: for any plan
/// whose merges each join two existing stacks of one kind.
pub proof fn lemma_merges_conserve_each_kind(counts: Seq<int>, kinds: Seq<ItemType>, plan: Seq<StackMerge>, k: ItemType)
    requires
        kinds.len() == counts.len(),
        forall|m: int|
            0 <= m < plan.len() ==> (#[trigger] plan[m]).into < counts.len() && plan[m].from < counts.len()
                && kinds[plan[m].into as int] == kinds[plan[m].from as int],
    ensures
        kind_total(merged_counts(counts, plan), kinds, k) == kind_total(counts, kinds, k),
    decreases plan.len(),
{
    if plan.len() > 0 {
        let init = plan.drop_last();
        assert forall|m: int| 0 <= m < init.len() implies (#[trigger] init[m]).into < counts.len() && init[m].from
            < counts.len() && kinds[init[m].into as int] == kinds[init[m].from as int] by {
            assert(init[m] == plan[m]);
        }
        lemma_merges_conserve_each_kind(counts, kinds, init, k);
        lemma_merged_len(counts, init);
        let before = merged_counts(counts, init);
        let g = plan.last();
        assert(g == plan[plan.len() - 1]);
        let mid = before.update(g.into as int, before[g.into as int] + g.amount);
        lemma_kind_total_update(before, kinds, g.into as int, before[g.into as int] + g.amount, k);
        lemma_kind_total_update(
            mid,
            kinds,
            g.from as int,
            before[g.from as int] + (if g.from == g.into { g.amount as int } else { 0 }) - g.amount,
            k,
        );
    }
}

/// Carrying out the planned merges of some stacks keeps the number of items
/// of every kind.
pub proof fn lemma_stack_merges_conserve_kinds(stacks: Seq<ItemStack>, near: Seq<Seq<bool>>, k: ItemType)
    requires
        stacks.len() <= usize::MAX,
    ensures
        kind_total(merged_counts(counts_of(stacks), planned_merges(stacks, near)), kinds_of(stacks), k) == kind_total(
            counts_of(stacks),
            kinds_of(stacks),
            k,
        ),
{
    let plan = planned_merges(stacks, near);
    if stacks.len() > 0 {
        lemma_planned_merges_join_one_kind(stacks, near, stacks.len() - 1, stacks.len() as int);
    } else {
        assert(plan =~= Seq::<StackMerge>::empty());
    }
    lemma_merges_conserve_each_kind(counts_of(stacks), kinds_of(stacks), plan, k);
}


/// An apple stack holds up to sixteen apples; a sword stands alone.
pub proof fn lemma_stack_maxima(kind: ItemType)
    ensures
        kind == ItemType::Apple ==> max_stack(kind) == 16,
        kind == ItemType::BasicSword ==> max_stack(kind) == 1,
        max_stack(kind) >= 1,
{
}

/// What each merge planned up to the pair before `(i, j)` moves: from a
/// later stack of the same kind lying near the earlier one, as many items as
/// the later one has, but no more than the earlier one has room for.
proof fn lemma_planned_amounts_upto(stacks: Seq<ItemStack>, near: Seq<Seq<bool>>, i: int, j: int)
    requires
        i < stacks.len(),
        j <= stacks.len(),
        stacks.len() <= usize::MAX,
        stacks_within_max(stacks),
    ensures
        forall|m: int|
            0 <= m < planned_merges_upto(stacks, near, i, j).len() ==> {
                let g = #[trigger] planned_merges_upto(stacks, near, i, j)[m];
                let a = stacks[g.into as int];
                let b = stacks[g.from as int];
                &&& g.into < g.from < stacks.len()
                &&& a.kind == b.kind
                &&& near[g.into as int][g.from as int]
                &&& a.count + g.amount <= max_stack(a.kind)
                &&& g.amount == if b.count < max_stack(a.kind) - a.count {
                    b.count as int
                } else {
                    max_stack(a.kind) - a.count
                }
            },
    decreases i, j,
{
    if i <= 0 && j <= 1 || i < 0 || j < 0 {
    } else if j <= i + 1 {
        lemma_planned_amounts_upto(stacks, near, i - 1, stacks.len() as int);
    } else {
        lemma_planned_amounts_upto(stacks, near, i, j - 1);
        let before = planned_merges_upto(stacks, near, i, j - 1);
        let all = planned_merges_upto(stacks, near, i, j);
        let a = stacks[i];
        let b = stacks[j - 1];
        assert(a.count <= max_stack(a.kind));
        assert forall|m: int| 0 <= m < all.len() implies {
            let g = #[trigger] all[m];
            let a2 = stacks[g.into as int];
            let b2 = stacks[g.from as int];
            &&& g.into < g.from < stacks.len()
            &&& a2.kind == b2.kind
            &&& near[g.into as int][g.from as int]
            &&& a2.count + g.amount <= max_stack(a2.kind)
            &&& g.amount == if b2.count < max_stack(a2.kind) - a2.count {
                b2.count as int
            } else {
                max_stack(a2.kind) - a2.count
            }
        } by {
            if near[i][j - 1] && spec_merge_amount(a, b) is Some {
                let g = StackMerge { into: i as usize, from: (j - 1) as usize, amount: spec_merge_amount(a, b).unwrap() };
                assert(all == before.push(g));
                if m < before.len() {
                    assert(all[m] == before[m]);
                } else {
                    assert(all[m] == g);
                }
            } else {
                assert(all == before);
            }
        }
    }
}

/// Merging never overfills a stack: every planned merge joins two stacks of
/// one kind lying near each other, the later into the earlier, and moves all
/// the items of the later stack when they fit, else just enough to fill the
/// earlier one to the kind's maximum.
pub proof fn lemma_planned_merges_fill_only_room(stacks: Seq<ItemStack>, near: Seq<Seq<bool>>)
    requires
        stacks.len() <= usize::MAX,
        stacks_within_max(stacks),
    ensures
        forall|m: int|
            0 <= m < planned_merges(stacks, near).len() ==> {
                let g = #[trigger] planned_merges(stacks, near)[m];
                let a = stacks[g.into as int];
                let b = stacks[g.from as int];
                &&& g.into < g.from < stacks.len()
                &&& a.kind == b.kind
                &&& near[g.into as int][g.from as int]
                &&& a.count + g.amount <= max_stack(a.kind)
                &&& g.amount == if b.count < max_stack(a.kind) - a.count {
                    b.count as int
                } else {
                    max_stack(a.kind) - a.count
                }
            },
{
    if stacks.len() > 0 {
        lemma_planned_amounts_upto(stacks, near, stacks.len() - 1, stacks.len() as int);
    } else {
        assert(planned_merges(stacks, near) =~= Seq::<StackMerge>::empty());
    }
}

} // verus!
