//! Which creature kinds hunt which: the prey of each kind, and the reverse,
//! the predators of each kind.
use vstd::prelude::*;
use vstd::hash_map::StringHashMap;

verus! {

/// What the creature database says a kind of creature eats and hunts.
pub struct CreatureDiet {
    pub kind: String,
    pub eats: Vec<String>,
    pub prey: Vec<String>,
}

/// The text of each name in a list.
pub open spec fn names(v: Seq<String>) -> Seq<Seq<char>> {
    v.map_values(|s: String| s@)
}

/// How often `x` occurs in `s`.
pub open spec fn count_in(s: Seq<Seq<char>>, x: Seq<char>) -> nat
    decreases s.len(),
{
    if s.len() == 0 {
        0
    } else {
        count_in(s.drop_last(), x) + if s.last() == x { 1nat } else { 0nat }
    }
}

/// A name occurs in a list exactly when it is counted there.
pub proof fn lemma_count_in_contains(s: Seq<Seq<char>>, x: Seq<char>)
    ensures
        count_in(s, x) > 0 <==> s.contains(x),
    decreases s.len(),
{
    if s.len() > 0 {
        lemma_count_in_contains(s.drop_last(), x);
        if s.drop_last().contains(x) {
            let i = choose|i: int| 0 <= i < s.drop_last().len() && s.drop_last()[i] == x;
            assert(s[i] == x);
        }
        if s.contains(x) && s.last() != x {
            let i = choose|i: int| 0 <= i < s.len() && s[i] == x;
            assert(s.drop_last()[i] == x);
        }
        if s.last() == x {
            assert(s[s.len() - 1] == x);
        }
    }
}

/// The prey of each kind, by the last database entry for that kind.
pub open spec fn prey_table(entries: Seq<CreatureDiet>) -> Map<Seq<char>, Seq<Seq<char>>>
    decreases entries.len(),
{
    if entries.len() == 0 {
        Map::empty()
    } else {
        prey_table(entries.drop_last()).insert(entries.last().kind@, names(entries.last().prey@))
    }
}

/// Predator and prey lists of the creature kinds.
pub struct CreatureRelations {
    prey_of: StringHashMap<Vec<String>>,
    predators_of: StringHashMap<Vec<String>>,
}

/// The prey lists under each kind, as text.
pub open spec fn name_table(m: Map<Seq<char>, Vec<String>>) -> Map<Seq<char>, Seq<Seq<char>>> {
    m.map_values(|v: Vec<String>| names(v@))
}

/// Predators of `t` found so far when the prey lists of the first `a` kinds
/// of `order` have been gone through, and the first `b` prey of the next.
spec fn found(table: Map<Seq<char>, Seq<Seq<char>>>, order: Seq<Seq<char>>, a: int, b: int, idx: int, t: Seq<char>) -> nat {
    if idx < a {
        count_in(table[order[idx]], t)
    } else if idx == a {
        count_in(table[order[idx]].take(b), t)
    } else {
        0
    }
}

proof fn lemma_count_take_step(s: Seq<Seq<char>>, b: int, t: Seq<char>)
    requires
        0 <= b < s.len(),
    ensures
        count_in(s.take(b + 1), t) == count_in(s.take(b), t) + if s[b] == t { 1nat } else { 0nat },
{
    assert(s.take(b + 1).drop_last() =~= s.take(b));
}

proof fn lemma_count_push(s: Seq<Seq<char>>, x: Seq<char>, t: Seq<char>)
    ensures
        count_in(s.push(x), t) == count_in(s, t) + if x == t { 1nat } else { 0nat },
{
    assert(s.push(x).drop_last() =~= s);
}

impl CreatureRelations {
    /// The relations hold what the database says: each kind's prey are those
    /// of its last entry; the predators of a kind `t` are the kinds that list
    /// `t` as prey, each as often as it lists it; every kind in the database,
    /// and every kind hunted, has a predator list.
    pub open spec fn built_from(&self, entries: Seq<CreatureDiet>) -> bool {
        let table = prey_table(entries);
        &&& self.prey_view() == table
        &&& forall|t: Seq<char>| #[trigger] self.predators_view().contains_key(t) <==> (table.contains_key(t)
            || exists|p: Seq<char>| table.contains_key(p) && #[trigger] table[p].contains(t))
        &&& forall|t: Seq<char>, p: Seq<char>| self.predators_view().contains_key(t) ==> #[trigger] count_in(
            self.predators_view()[t],
            p,
        ) == if table.contains_key(p) {
            count_in(table[p], t)
        } else {
            0
        }
    }

    /// The prey of each kind, as text.
    pub closed spec fn prey_view(&self) -> Map<Seq<char>, Seq<Seq<char>>> {
        name_table(self.prey_of@)
    }

    /// The predators of each kind, as text.
    pub closed spec fn predators_view(&self) -> Map<Seq<char>, Seq<Seq<char>>> {
        name_table(self.predators_of@)
    }

    /// Builds the relations from the database: each kind's prey are those of
    /// its last entry; the predators of a kind are the kinds that list it as
    /// prey, each as often as it lists it. Every kind in the database has a
    /// predator list, empty when nothing hunts it; so does every kind hunted.
    pub fn build(entries: &Vec<CreatureDiet>) -> (r: CreatureRelations)
        ensures
            r.built_from(entries@),
    {
        let mut prey_of: StringHashMap<Vec<String>> = StringHashMap::new();
        let mut predators_of: StringHashMap<Vec<String>> = StringHashMap::new();
        let mut kinds: Vec<String> = Vec::new();
        let mut i: usize = 0;
        while i < entries.len()
            invariant
                i <= entries@.len(),
                name_table(prey_of@) == prey_table(entries@.take(i as int)),
                names(kinds@).no_duplicates(),
                forall|k: Seq<char>| #[trigger] names(kinds@).contains(k) <==> prey_of@.contains_key(k),
                forall|k: Seq<char>| #[trigger] predators_of@.contains_key(k) <==> prey_of@.contains_key(k),
                forall|k: Seq<char>| #[trigger] predators_of@.contains_key(k) ==> predators_of@[k]@.len() == 0,
            decreases entries@.len() - i,
        {
            let entry = &entries[i];
            let ghost old_prey = prey_of@;
            let ghost old_kinds = kinds@;
            if !prey_of.contains_key(entry.kind.as_str()) {
                kinds.push(entry.kind.clone());
                proof {
                    assert(names(kinds@) =~= names(old_kinds).push(entry.kind@));
                    assert(!names(old_kinds).contains(entry.kind@));
                    assert forall|x: int, y: int| 0 <= x < names(kinds@).len() && 0 <= y < names(kinds@).len() && x != y
                        implies names(kinds@)[x] != names(kinds@)[y] by {
                        if x < names(old_kinds).len() && y < names(old_kinds).len() {
                            assert(names(old_kinds)[x] != names(old_kinds)[y]);
                        } else if x < names(old_kinds).len() {
                            assert(names(old_kinds).contains(names(kinds@)[x]));
                        } else {
                            assert(names(old_kinds).contains(names(kinds@)[y]));
                        }
                    }
                    assert forall|k: Seq<char>| #[trigger] names(kinds@).contains(k) <==> (names(old_kinds).contains(k) || k == entry.kind@) by {
                        if names(kinds@).contains(k) && k != entry.kind@ {
                            let j = choose|j: int| 0 <= j < names(kinds@).len() && names(kinds@)[j] == k;
                            assert(names(old_kinds)[j] == k);
                        }
                        if names(old_kinds).contains(k) {
                            let j = choose|j: int| 0 <= j < names(old_kinds).len() && names(old_kinds)[j] == k;
                            assert(names(kinds@)[j] == k);
                        }
                        if k == entry.kind@ {
                            assert(names(kinds@)[names(kinds@).len() - 1] == k);
                        }
                    }
                }
            }
            let prey_list = entry.prey.clone();
            proof {
                assert(prey_list@ =~= entry.prey@);
            }
            prey_of.insert(entry.kind.clone(), prey_list);
            if !predators_of.contains_key(entry.kind.as_str()) {
                predators_of.insert(entry.kind.clone(), Vec::new());
            }
            proof {
                assert(entries@.take(i + 1).drop_last() =~= entries@.take(i as int));
                assert(entries@.take(i + 1).last() == entries@[i as int]);
                assert(name_table(prey_of@) =~= name_table(old_prey).insert(entry.kind@, names(entry.prey@)));
            }
            i = i + 1;
        }
        proof {
            assert(entries@.take(i as int) =~= entries@);
        }
        let ghost table = name_table(prey_of@);
        let ghost order = names(kinds@);
        let mut a: usize = 0;
        while a < kinds.len()
            invariant
                table == name_table(prey_of@),
                table == prey_table(entries@),
                order == names(kinds@),
                order.no_duplicates(),
                forall|k: Seq<char>| #[trigger] order.contains(k) <==> prey_of@.contains_key(k),
                a <= kinds@.len(),
                forall|t: Seq<char>| #[trigger] predators_of@.contains_key(t) <==> (table.contains_key(t)
                    || exists|idx: int| 0 <= idx < order.len() && #[trigger] found(table, order, a as int, 0, idx, t) > 0),
                forall|t: Seq<char>, idx: int| predators_of@.contains_key(t) && 0 <= idx < order.len() ==> #[trigger] count_in(
                    names(predators_of@[t]@),
                    order[idx],
                ) == found(table, order, a as int, 0, idx, t),
                forall|t: Seq<char>, p: Seq<char>| predators_of@.contains_key(t) && !order.contains(p) ==> #[trigger] count_in(
                    names(predators_of@[t]@),
                    p,
                ) == 0,
            decreases kinds@.len() - a,
        {
            assert(order[a as int] == kinds@[a as int]@);
            assert(order.contains(order[a as int]));
            let found_list = prey_of.get(kinds[a].as_str());
            if found_list.is_none() {
                assert(false);
            }
            let list: &Vec<String> = found_list.unwrap();
            assert(names(list@) == table[order[a as int]]);
            let mut b: usize = 0;
            while b < list.len()
                invariant
                    table == name_table(prey_of@),
                    table == prey_table(entries@),
                    order == names(kinds@),
                    order.no_duplicates(),
                    forall|k: Seq<char>| #[trigger] order.contains(k) <==> prey_of@.contains_key(k),
                    a < kinds@.len(),
                    names(list@) == table[order[a as int]],
                    b <= list@.len(),
                    forall|t: Seq<char>| #[trigger] predators_of@.contains_key(t) <==> (table.contains_key(t)
                        || exists|idx: int| 0 <= idx < order.len() && #[trigger] found(table, order, a as int, b as int, idx, t) > 0),
                    forall|t: Seq<char>, idx: int| predators_of@.contains_key(t) && 0 <= idx < order.len() ==> #[trigger] count_in(
                        names(predators_of@[t]@),
                        order[idx],
                    ) == found(table, order, a as int, b as int, idx, t),
                    forall|t: Seq<char>, p: Seq<char>| predators_of@.contains_key(t) && !order.contains(p) ==> #[trigger] count_in(
                        names(predators_of@[t]@),
                        p,
                    ) == 0,
                decreases list@.len() - b,
            {
                let prey = &list[b];
                let ghost t0 = prey@;
                let ghost p0 = order[a as int];
                let ghost old_pred = predators_of@;
                let mut hunters: Vec<String> = match predators_of.get(prey.as_str()) {
                    Some(v) => v.clone(),
                    None => Vec::new(),
                };
                proof {
                    if old_pred.contains_key(t0) {
                        assert(hunters@ =~= old_pred[t0]@);
                    }
                }
                let ghost before_push = hunters@;
                hunters.push(kinds[a].clone());
                predators_of.insert(prey.clone(), hunters);
                proof {
                    assert(names(list@)[b as int] == t0);
                    assert(names(hunters@) =~= names(before_push).push(p0));
                    assert forall|idx: int, t: Seq<char>| 0 <= idx < order.len() && t != t0 implies
                        found(table, order, a as int, (b + 1) as int, idx, t) == found(table, order, a as int, b as int, idx, t) by {
                        if idx == a {
                            lemma_count_take_step(table[order[idx]], b as int, t);
                        }
                    }
                    assert forall|idx: int| 0 <= idx < order.len() implies
                        #[trigger] found(table, order, a as int, (b + 1) as int, idx, t0) == found(table, order, a as int, b as int, idx, t0)
                            + if idx == a { 1nat } else { 0nat } by {
                        if idx == a {
                            lemma_count_take_step(table[order[idx]], b as int, t0);
                        }
                    }
                    if !old_pred.contains_key(t0) {
                        assert forall|idx: int| 0 <= idx < order.len() implies found(table, order, a as int, b as int, idx, t0) == 0 by {
                            if found(table, order, a as int, b as int, idx, t0) > 0 {
                                assert(false);
                            }
                        }
                        assert(before_push.len() == 0);
                        assert(names(before_push) =~= Seq::<Seq<char>>::empty());
                    }
                    assert forall|t: Seq<char>| #[trigger] predators_of@.contains_key(t) <==> (table.contains_key(t)
                        || exists|idx: int| 0 <= idx < order.len() && #[trigger] found(table, order, a as int, (b + 1) as int, idx, t) > 0) by {
                        if t == t0 {
                            assert(found(table, order, a as int, (b + 1) as int, a as int, t0) > 0);
                        } else {
                            if exists|idx: int| 0 <= idx < order.len() && #[trigger] found(table, order, a as int, (b + 1) as int, idx, t) > 0 {
                                let idx = choose|idx: int| 0 <= idx < order.len() && #[trigger] found(table, order, a as int, (b + 1) as int, idx, t) > 0;
                                assert(found(table, order, a as int, b as int, idx, t) > 0);
                            }
                            if exists|idx: int| 0 <= idx < order.len() && #[trigger] found(table, order, a as int, b as int, idx, t) > 0 {
                                let idx = choose|idx: int| 0 <= idx < order.len() && #[trigger] found(table, order, a as int, b as int, idx, t) > 0;
                                assert(found(table, order, a as int, (b + 1) as int, idx, t) > 0);
                            }
                        }
                    }
                    assert forall|t: Seq<char>, idx: int| predators_of@.contains_key(t) && 0 <= idx < order.len() implies #[trigger] count_in(
                        names(predators_of@[t]@),
                        order[idx],
                    ) == found(table, order, a as int, (b + 1) as int, idx, t) by {
                        if t == t0 {
                            lemma_count_push(names(before_push), p0, order[idx]);
                            if idx != a {
                                assert(order[idx] != p0);
                            }
                        }
                    }
                    assert forall|t: Seq<char>, p: Seq<char>| predators_of@.contains_key(t) && !order.contains(p) implies #[trigger] count_in(
                        names(predators_of@[t]@),
                        p,
                    ) == 0 by {
                        if t == t0 {
                            lemma_count_push(names(before_push), p0, p);
                            assert(order.contains(p0));
                        }
                    }
                }
                b = b + 1;
            }
            proof {
                assert(table[order[a as int]].take(b as int) =~= table[order[a as int]]);
                assert forall|idx: int, t: Seq<char>| 0 <= idx < order.len() implies
                    found(table, order, (a + 1) as int, 0, idx, t) == found(table, order, a as int, b as int, idx, t) by {
                    if idx == a + 1 {
                        assert(table[order[idx]].take(0) =~= Seq::<Seq<char>>::empty());
                    }
                }
                assert forall|t: Seq<char>| #[trigger] predators_of@.contains_key(t) <==> (table.contains_key(t)
                    || exists|idx: int| 0 <= idx < order.len() && #[trigger] found(table, order, (a + 1) as int, 0, idx, t) > 0) by {
                    if exists|idx: int| 0 <= idx < order.len() && #[trigger] found(table, order, (a + 1) as int, 0, idx, t) > 0 {
                        let idx = choose|idx: int| 0 <= idx < order.len() && #[trigger] found(table, order, (a + 1) as int, 0, idx, t) > 0;
                        assert(found(table, order, a as int, b as int, idx, t) > 0);
                    }
                    if exists|idx: int| 0 <= idx < order.len() && #[trigger] found(table, order, a as int, b as int, idx, t) > 0 {
                        let idx = choose|idx: int| 0 <= idx < order.len() && #[trigger] found(table, order, a as int, b as int, idx, t) > 0;
                        assert(found(table, order, (a + 1) as int, 0, idx, t) > 0);
                    }
                }
            }
            a = a + 1;
        }
        let r = CreatureRelations { prey_of, predators_of };
        proof {
            assert forall|t: Seq<char>| #[trigger] r.predators_view().contains_key(t) <==> (table.contains_key(t)
                || exists|p: Seq<char>| table.contains_key(p) && #[trigger] table[p].contains(t)) by {
                if exists|idx: int| 0 <= idx < order.len() && #[trigger] found(table, order, a as int, 0, idx, t) > 0 {
                    let idx = choose|idx: int| 0 <= idx < order.len() && #[trigger] found(table, order, a as int, 0, idx, t) > 0;
                    lemma_count_in_contains(table[order[idx]], t);
                    assert(order.contains(order[idx]));
                }
                if exists|p: Seq<char>| table.contains_key(p) && #[trigger] table[p].contains(t) {
                    let p = choose|p: Seq<char>| table.contains_key(p) && #[trigger] table[p].contains(t);
                    assert(order.contains(p));
                    let idx = choose|idx: int| 0 <= idx < order.len() && order[idx] == p;
                    lemma_count_in_contains(table[p], t);
                    assert(idx < a);
                    assert(found(table, order, a as int, 0, idx, t) == count_in(table[p], t));
                    assert(found(table, order, a as int, 0, idx, t) > 0);
                }
            }
            assert forall|t: Seq<char>, p: Seq<char>| r.predators_view().contains_key(t) implies #[trigger] count_in(
                r.predators_view()[t],
                p,
            ) == if table.contains_key(p) {
                count_in(table[p], t)
            } else {
                0
            } by {
                assert(r.predators_view()[t] == names(predators_of@[t]@));
                assert(predators_of@.contains_key(t));
                if !table.contains_key(p) {
                    assert(!prey_of@.contains_key(p));
                    assert(!order.contains(p));
                    assert(count_in(names(predators_of@[t]@), p) == 0);
                }
                if table.contains_key(p) {
                    assert(order.contains(p));
                    let idx = choose|idx: int| 0 <= idx < order.len() && order[idx] == p;
                    assert(count_in(names(predators_of@[t]@), order[idx]) == found(table, order, a as int, 0, idx, t));
                }
            }
        }
        r
    }

    /// The prey of `kind`; none for a kind the database does not list.
    pub fn prey_of(&self, kind: &str) -> (prey: &[String])
        ensures
            names(prey@) == if self.prey_view().contains_key(kind@) {
                self.prey_view()[kind@]
            } else {
                Seq::<Seq<char>>::empty()
            },
    {
        match self.prey_of.get(kind) {
            Some(v) => v.as_slice(),
            None => {
                let empty: &[String] = &[];
                assert(names(empty@) =~= Seq::<Seq<char>>::empty());
                empty
            },
        }
    }

    /// The predators of `kind`; none for a kind no entry mentions.
    pub fn predators_of(&self, kind: &str) -> (predators: &[String])
        ensures
            names(predators@) == if self.predators_view().contains_key(kind@) {
                self.predators_view()[kind@]
            } else {
                Seq::<Seq<char>>::empty()
            },
    {
        match self.predators_of.get(kind) {
            Some(v) => v.as_slice(),
            None => {
                let empty: &[String] = &[];
                assert(names(empty@) =~= Seq::<Seq<char>>::empty());
                empty
            },
        }
    }

    /// Whether some kind hunts `kind`.
    pub fn is_prey(&self, kind: &str) -> (r: bool)
        ensures
            r == (self.predators_view().contains_key(kind@) && self.predators_view()[kind@].len() > 0),
    {
        let predators = self.predators_of(kind);
        assert(names(predators@).len() == predators@.len());
        predators.len() > 0
    }

    /// Whether `kind` hunts anything.
    pub fn is_predator(&self, kind: &str) -> (r: bool)
        ensures
            r == (self.prey_view().contains_key(kind@) && self.prey_view()[kind@].len() > 0),
    {
        let prey = self.prey_of(kind);
        assert(names(prey@).len() == prey@.len());
        prey.len() > 0
    }

    /// Whether `hunter` lists `target` among its prey.
    pub fn hunts(&self, hunter: &str, target: &str) -> (r: bool)
        ensures
            r == (self.prey_view().contains_key(hunter@) && self.prey_view()[hunter@].contains(target@)),
    {
        let prey = self.prey_of(hunter);
        let wanted = target.to_owned();
        let mut i: usize = 0;
        while i < prey.len()
            invariant
                i <= prey@.len(),
                wanted@ == target@,
                forall|j: int| 0 <= j < i ==> prey@[j]@ != target@,
                names(prey@) == if self.prey_view().contains_key(hunter@) {
                    self.prey_view()[hunter@]
                } else {
                    Seq::<Seq<char>>::empty()
                },
            decreases prey@.len() - i,
        {
            if prey[i] == wanted {
                assert(names(prey@)[i as int] == target@);
                assert(names(prey@).contains(target@));
                assert(names(prey@).len() > 0);
                return true;
            }
            i = i + 1;
        }
        proof {
            if names(prey@).contains(target@) {
                let j = choose|j: int| 0 <= j < names(prey@).len() && names(prey@)[j] == target@;
                assert(prey@[j]@ == target@);
            }
        }
        false
    }
}

/// The predator lists are the reverse of the prey lists: a kind in the
/// database is listed as a predator of `t` exactly when it lists `t` as prey,
/// and as often.
pub proof fn lemma_relations_are_reverse(r: CreatureRelations, entries: Seq<CreatureDiet>, p: Seq<char>, t: Seq<char>)
    requires
        r.built_from(entries),
        r.prey_view().contains_key(p),
    ensures
        r.prey_view()[p].contains(t) <==> (r.predators_view().contains_key(t) && r.predators_view()[t].contains(p)),
{
    lemma_count_in_contains(r.prey_view()[p], t);
    if r.predators_view().contains_key(t) {
        lemma_count_in_contains(r.predators_view()[t], p);
        assert(count_in(r.predators_view()[t], p) == count_in(prey_table(entries)[p], t));
    }
}

} // verus!
