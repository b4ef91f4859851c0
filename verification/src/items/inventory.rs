//! A bounded list of carried items and which one is selected.
use vstd::prelude::*;

verus! {

/// Carried items, each named by the id of its entity, with room for
/// `slot_count` of them, and the index of the selected one.
pub struct Inventory {
    pub items: Vec<u64>,
    pub slot_count: usize,
    pub selected_item: Option<usize>,
}

/// The selection names an item that is there.
pub open spec fn selection_valid(items: Seq<u64>, selected: Option<usize>) -> bool {
    match selected {
        Some(i) => items.len() > 0 && i < items.len(),
        None => false,
    }
}

/// An item lying nearby that an inventory may pick up.
#[derive(Clone, Copy, Debug, PartialEq, Eq, Structural)]
pub struct PickupCandidate {
    /// Id of the item's entity.
    pub item: u64,
    /// Id of the entity that dropped it, while it cannot pick it up again.
    pub cooldown_owner: Option<u64>,
    /// Whether the item is within pickup distance.
    pub in_range: bool,
}

/// State of one pass of picking up nearby items.
pub struct PickupState {
    pub items: Seq<u64>,
    pub selected: Option<usize>,
    pub claimed: Seq<u64>,
}

/// Result of offering `cands`, in order, to an inventory of `slot_count`
/// slots owned by entity `owner`: the pass stops once the inventory is full;
/// an item already claimed, or still cooling down for the owner, is passed
/// over; an item in range is added and claimed, and selects the first slot
/// when nothing was selected.
pub open spec fn pickup_pass(state: PickupState, slot_count: usize, owner: u64, cands: Seq<PickupCandidate>) -> PickupState
    decreases cands.len(),
{
    if cands.len() == 0 || state.items.len() >= slot_count {
        state
    } else {
        let c = cands[0];
        let next = if state.claimed.contains(c.item) || c.cooldown_owner == Some(owner) || !c.in_range {
            state
        } else {
            PickupState {
                items: state.items.push(c.item),
                selected: if state.selected is None { Some(0usize) } else { state.selected },
                claimed: state.claimed.push(c.item),
            }
        };
        pickup_pass(next, slot_count, owner, cands.drop_first())
    }
}

/// The items whose flag in `keep` is set, in order.
pub open spec fn kept(items: Seq<u64>, keep: Seq<bool>) -> Seq<u64>
    decreases items.len(),
{
    if items.len() == 0 {
        Seq::empty()
    } else {
        let rest = kept(items.drop_last(), keep.drop_last());
        if keep.last() { rest.push(items.last()) } else { rest }
    }
}

/// Picking up never overfills an inventory, and what it adds to the
/// inventory is exactly what it adds to the claimed items.
pub proof fn lemma_pickup_pass_fills_within_slots(
    state: PickupState,
    slot_count: usize,
    owner: u64,
    cands: Seq<PickupCandidate>,
)
    requires
        state.items.len() <= slot_count,
    ensures
        ({
            let r = pickup_pass(state, slot_count, owner, cands);
            &&& r.items.len() <= slot_count
            &&& r.items.len() >= state.items.len()
            &&& r.items == state.items + r.items.skip(state.items.len() as int)
            &&& r.claimed == state.claimed + r.items.skip(state.items.len() as int)
        }),
    decreases cands.len(),
{
    let r = pickup_pass(state, slot_count, owner, cands);
    if cands.len() == 0 || state.items.len() >= slot_count {
        assert(r.items.skip(state.items.len() as int) =~= Seq::<u64>::empty());
        assert(r.items =~= state.items + Seq::<u64>::empty());
        assert(r.claimed =~= state.claimed + Seq::<u64>::empty());
    } else {
        let c = cands[0];
        if state.claimed.contains(c.item) || c.cooldown_owner == Some(owner) || !c.in_range {
            lemma_pickup_pass_fills_within_slots(state, slot_count, owner, cands.drop_first());
        } else {
            let next = PickupState {
                items: state.items.push(c.item),
                selected: if state.selected is None { Some(0usize) } else { state.selected },
                claimed: state.claimed.push(c.item),
            };
            lemma_pickup_pass_fills_within_slots(next, slot_count, owner, cands.drop_first());
            let d = r.items.skip(next.items.len() as int);
            assert(r.items.skip(state.items.len() as int) =~= seq![c.item] + d);
            assert(r.items =~= state.items + (seq![c.item] + d));
            assert(r.claimed =~= state.claimed + (seq![c.item] + d));
        }
    }
}

/// An item an inventory picks up comes from a candidate it may take: one in
/// range, not cooling down for its owner, and not claimed before the pass.
/// What the pass had already holds stays at the front.
pub proof fn lemma_pickup_takes_eligible_items(
    state: PickupState,
    slot_count: usize,
    owner: u64,
    cands: Seq<PickupCandidate>,
)
    ensures
        ({
            let r = pickup_pass(state, slot_count, owner, cands);
            let added = r.items.skip(state.items.len() as int);
            &&& r.items.len() >= state.items.len()
            &&& r.items.subrange(0, state.items.len() as int) == state.items
            &&& forall|i: int|
                0 <= i < added.len() ==> !state.claimed.contains(#[trigger] added[i]) && exists|j: int|
                    0 <= j < cands.len() && (#[trigger] cands[j]).item == added[i] && cands[j].in_range
                        && cands[j].cooldown_owner != Some(owner)
        }),
    decreases cands.len(),
{
    let r = pickup_pass(state, slot_count, owner, cands);
    let n = state.items.len() as int;
    let added = r.items.skip(n);
    if cands.len() == 0 || state.items.len() >= slot_count {
        assert(r.items.subrange(0, n) =~= state.items);
    } else {
        let c = cands[0];
        let rest = cands.drop_first();
        if state.claimed.contains(c.item) || c.cooldown_owner == Some(owner) || !c.in_range {
            lemma_pickup_takes_eligible_items(state, slot_count, owner, rest);
            assert forall|i: int| 0 <= i < added.len() implies !state.claimed.contains(#[trigger] added[i]) && exists|j: int|
                0 <= j < cands.len() && (#[trigger] cands[j]).item == added[i] && cands[j].in_range
                    && cands[j].cooldown_owner != Some(owner) by {
                let j = choose|j: int|
                    0 <= j < rest.len() && (#[trigger] rest[j]).item == added[i] && rest[j].in_range
                        && rest[j].cooldown_owner != Some(owner);
                assert(cands[j + 1] == rest[j]);
            }
        } else {
            let next = PickupState {
                items: state.items.push(c.item),
                selected: if state.selected is None { Some(0usize) } else { state.selected },
                claimed: state.claimed.push(c.item),
            };
            lemma_pickup_takes_eligible_items(next, slot_count, owner, rest);
            let added2 = r.items.skip(n + 1);
            assert(r.items.subrange(0, n + 1) == next.items);
            assert(r.items.subrange(0, n) =~= state.items) by {
                assert forall|i: int| 0 <= i < n implies r.items[i] == state.items[i] by {
                    assert(r.items.subrange(0, n + 1)[i] == next.items[i]);
                }
            }
            assert(r.items[n] == c.item) by {
                assert(r.items.subrange(0, n + 1)[n] == next.items[n]);
            }
            assert forall|i: int| 0 <= i < added.len() implies !state.claimed.contains(#[trigger] added[i]) && exists|j: int|
                0 <= j < cands.len() && (#[trigger] cands[j]).item == added[i] && cands[j].in_range
                    && cands[j].cooldown_owner != Some(owner) by {
                if i == 0 {
                    assert(added[0] == c.item);
                    assert(cands[0].item == added[0]);
                } else {
                    assert(added[i] == added2[i - 1]);
                    assert(!next.claimed.contains(added2[i - 1]));
                    if state.claimed.contains(added[i]) {
                        let k = choose|k: int| 0 <= k < state.claimed.len() && state.claimed[k] == added[i];
                        assert(next.claimed[k] == added[i]);
                    }
                    let j = choose|j: int|
                        0 <= j < rest.len() && (#[trigger] rest[j]).item == added2[i - 1] && rest[j].in_range
                            && rest[j].cooldown_owner != Some(owner);
                    assert(cands[j + 1] == rest[j]);
                }
            }
        }
    }
}

/// No item is claimed twice: when no item was claimed twice before a pass,
/// none is after it, so no item goes to two inventories.
pub proof fn lemma_pickup_claims_once(
    state: PickupState,
    slot_count: usize,
    owner: u64,
    cands: Seq<PickupCandidate>,
)
    requires
        state.claimed.no_duplicates(),
    ensures
        pickup_pass(state, slot_count, owner, cands).claimed.no_duplicates(),
    decreases cands.len(),
{
    if cands.len() > 0 && state.items.len() < slot_count {
        let c = cands[0];
        let rest = cands.drop_first();
        if state.claimed.contains(c.item) || c.cooldown_owner == Some(owner) || !c.in_range {
            lemma_pickup_claims_once(state, slot_count, owner, rest);
        } else {
            let claimed2 = state.claimed.push(c.item);
            assert(claimed2.no_duplicates()) by {
                assert forall|a: int, b: int| 0 <= a < claimed2.len() && 0 <= b < claimed2.len() && a != b implies claimed2[a]
                    != claimed2[b] by {
                    if a < state.claimed.len() && b < state.claimed.len() {
                        assert(state.claimed[a] != state.claimed[b]);
                    } else if a < state.claimed.len() {
                        assert(claimed2[a] == state.claimed[a]);
                    } else {
                        assert(claimed2[b] == state.claimed[b]);
                    }
                }
            }
            let next = PickupState {
                items: state.items.push(c.item),
                selected: if state.selected is None { Some(0usize) } else { state.selected },
                claimed: claimed2,
            };
            lemma_pickup_claims_once(next, slot_count, owner, rest);
        }
    }
}

impl Inventory {
    /// An empty inventory with `slot_count` slots and nothing selected.
    pub fn new(slot_count: usize) -> (inv: Inventory)
        ensures
            inv.items@.len() == 0,
            inv.slots() == slot_count,
            inv.selected_item is None,
    {
        Inventory { items: Vec::new(), slot_count, selected_item: None }
    }

    /// Number of slots.
    pub open spec fn slots(&self) -> usize {
        self.slot_count
    }

    /// Number of slots.
    pub fn slot_count(&self) -> (n: usize)
        ensures
            n == self.slots(),
    {
        self.slot_count
    }

    /// Whether every slot holds an item.
    pub fn is_full(&self) -> (full: bool)
        ensures
            full == (self.items@.len() >= self.slots()),
    {
        self.items.len() >= self.slot_count
    }

    /// Whether no item is carried.
    pub fn is_empty(&self) -> (empty: bool)
        ensures
            empty == (self.items@.len() == 0),
    {
        self.items.len() == 0
    }

    /// Whether the selection names an item that is there.
    pub fn selecting_valid_item(&self) -> (valid: bool)
        ensures
            valid == selection_valid(self.items@, self.selected_item),
    {
        match self.selected_item {
            None => false,
            Some(i) => {
                if self.is_empty() {
                    return false;
                }
                i < self.items.len()
            },
        }
    }

    /// Keeps a valid selection; otherwise selects the last item, or nothing
    /// when the inventory is empty.
    pub fn select_valid_item(&mut self)
        ensures
            final(self).items == old(self).items,
            final(self).slots() == old(self).slots(),
            selection_valid(old(self).items@, old(self).selected_item) ==> final(self).selected_item
                == old(self).selected_item,
            !selection_valid(old(self).items@, old(self).selected_item) && old(self).items@.len() == 0
                ==> final(self).selected_item is None,
            !selection_valid(old(self).items@, old(self).selected_item) && old(self).items@.len() > 0
                ==> final(self).selected_item == Some((old(self).items@.len() - 1) as usize),
            selection_valid(final(self).items@, final(self).selected_item) <==> final(self).items@.len() > 0,
    {
        if self.selecting_valid_item() {
            return;
        }
        if self.is_empty() {
            self.selected_item = None;
            return;
        }
        self.selected_item = Some(self.items.len() - 1);
    }

    /// Takes the selected item out, as dropping it does, and then keeps the
    /// selection valid. Gives `None` and changes nothing when nothing is
    /// selected.
    pub fn drop_selected(&mut self) -> (dropped: Option<u64>)
        requires
            old(self).selected_item matches Some(i) ==> i < old(self).items@.len(),
        ensures
            old(self).selected_item is None ==> dropped is None && *final(self) == *old(self),
            old(self).selected_item matches Some(i) ==> {
                &&& dropped == Some(old(self).items@[i as int])
                &&& final(self).items@ == old(self).items@.remove(i as int)
                &&& final(self).slots() == old(self).slots()
                &&& selection_valid(final(self).items@, old(self).selected_item) ==> final(self).selected_item
                    == old(self).selected_item
                &&& !selection_valid(final(self).items@, old(self).selected_item) && final(self).items@.len() == 0
                    ==> final(self).selected_item is None
                &&& !selection_valid(final(self).items@, old(self).selected_item) && final(self).items@.len() > 0
                    ==> final(self).selected_item == Some((final(self).items@.len() - 1) as usize)
                &&& selection_valid(final(self).items@, final(self).selected_item) <==> final(self).items@.len() > 0
            },
    {
        let index = match self.selected_item {
            None => return None,
            Some(i) => i,
        };
        let item = self.items.remove(index);
        if !self.selecting_valid_item() {
            self.select_valid_item();
        }
        Some(item)
    }

    /// Keeps the items whose flag in `keep` is set, as when items that no
    /// longer exist are removed. The selection is left as it is.
    pub fn retain_items(&mut self, keep: &Vec<bool>)
        requires
            keep@.len() == old(self).items@.len(),
        ensures
            final(self).items@ == kept(old(self).items@, keep@),
            final(self).selected_item == old(self).selected_item,
            final(self).slots() == old(self).slots(),
    {
        let mut out: Vec<u64> = Vec::new();
        let mut i: usize = 0;
        while i < self.items.len()
            invariant
                keep@.len() == self.items@.len(),
                self.items == old(self).items,
                i <= self.items@.len(),
                out@ == kept(self.items@.subrange(0, i as int), keep@.subrange(0, i as int)),
            decreases self.items@.len() - i,
        {
            proof {
                assert(self.items@.subrange(0, i + 1).drop_last() =~= self.items@.subrange(0, i as int));
                assert(keep@.subrange(0, i + 1).drop_last() =~= keep@.subrange(0, i as int));
            }
            if keep[i] {
                out.push(self.items[i]);
            }
            i = i + 1;
        }
        proof {
            assert(self.items@.subrange(0, i as int) =~= self.items@);
            assert(keep@.subrange(0, i as int) =~= keep@);
        }
        self.items = out;
    }

    /// Picks up the nearby items this inventory may take, in the order they
    /// are offered, until it is full. Each item taken is added to `claimed`
    /// so that no other inventory takes it in the same pass.
    pub fn pickup_nearby(&mut self, owner: u64, candidates: &Vec<PickupCandidate>, claimed: &mut Vec<u64>)
        ensures
            ({
                let r = pickup_pass(
                    PickupState { items: old(self).items@, selected: old(self).selected_item, claimed: old(claimed)@ },
                    old(self).slots(),
                    owner,
                    candidates@,
                );
                &&& final(self).items@ == r.items
                &&& final(self).selected_item == r.selected
                &&& final(claimed)@ == r.claimed
            }),
            final(self).slots() == old(self).slots(),
    {
        let mut i: usize = 0;
        proof {
            assert(candidates@.subrange(0, candidates@.len() as int) =~= candidates@);
        }
        while i < candidates.len() && !self.is_full()
            invariant
                self.slots() == old(self).slots(),
                i <= candidates@.len(),
                pickup_pass(
                    PickupState { items: self.items@, selected: self.selected_item, claimed: claimed@ },
                    self.slots(),
                    owner,
                    candidates@.subrange(i as int, candidates@.len() as int),
                ) == pickup_pass(
                    PickupState { items: old(self).items@, selected: old(self).selected_item, claimed: old(claimed)@ },
                    old(self).slots(),
                    owner,
                    candidates@,
                ),
            decreases candidates@.len() - i,
        {
            let ghost rest = candidates@.subrange(i as int, candidates@.len() as int);
            let c = candidates[i];
            let mut already = false;
            let mut j: usize = 0;
            while j < claimed.len()
                invariant
                    j <= claimed@.len(),
                    already == claimed@.subrange(0, j as int).contains(c.item),
                decreases claimed@.len() - j,
            {
                let ghost prefix = claimed@.subrange(0, j as int);
                proof {
                    assert(claimed@.subrange(0, j + 1) =~= prefix.push(claimed@[j as int]));
                }
                if claimed[j] == c.item {
                    already = true;
                }
                proof {
                    let next = claimed@.subrange(0, j + 1);
                    if claimed@[j as int] == c.item {
                        assert(next[j as int] == c.item);
                    } else {
                        if next.contains(c.item) {
                            let k = choose|k: int| 0 <= k < next.len() && next[k] == c.item;
                            assert(prefix[k] == c.item);
                        }
                        if prefix.contains(c.item) {
                            let k = choose|k: int| 0 <= k < prefix.len() && prefix[k] == c.item;
                            assert(next[k] == c.item);
                        }
                    }
                }
                j = j + 1;
            }
            proof {
                assert(claimed@.subrange(0, j as int) =~= claimed@);
                assert(rest[0] == c);
                assert(rest.drop_first() =~= candidates@.subrange(i + 1, candidates@.len() as int));
            }
            let on_cooldown = match c.cooldown_owner {
                Some(o) => o == owner,
                None => false,
            };
            if !already && !on_cooldown && c.in_range {
                self.items.push(c.item);
                if self.selected_item.is_none() {
                    self.selected_item = Some(0);
                }
                claimed.push(c.item);
            }
            i = i + 1;
        }
        proof {
            if i == candidates@.len() {
                assert(candidates@.subrange(i as int, candidates@.len() as int) =~= Seq::<PickupCandidate>::empty());
            }
        }
    }
}

} // verus!
