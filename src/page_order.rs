use std::collections::HashMap;
use vstd::multiset::group_multiset_axioms;
use vstd::prelude::*;
use vstd::seq_lib::group_to_multiset_ensures;

verus! {

broadcast use vstd::std_specs::hash::group_hash_axioms;

/// Why a sequence of pages could not be put in order.
pub enum SortError {
    /// The rules among the pages of the sequence form a cycle.
    CycleDetected,
}

/// `m` links `a` to `b`: the list that `m` keeps for `a` holds `b`.
pub open spec fn links(m: Map<i32, Vec<i32>>, a: i32, b: i32) -> bool {
    m.contains_key(a) && m[a]@.contains(b)
}

/// Each list of `m` holds every page at most once.
pub open spec fn lists_distinct(m: Map<i32, Vec<i32>>) -> bool {
    forall|a: i32| #[trigger] m.contains_key(a) ==> m[a]@.no_duplicates()
}

/// Whether `x` occurs in `list`.
fn contains_page(list: &Vec<i32>, x: i32) -> (r: bool)
    ensures
        r == list@.contains(x),
{
    let mut i: usize = 0;
    while i < list.len()
        invariant
            i <= list.len(),
            forall|k: int| 0 <= k < i ==> list@[k] != x,
        decreases list.len() - i,
    {
        if list[i] == x {
            assert(list@[i as int] == x);
            return true;
        }
        i += 1;
    }
    false
}

/// Adds `b` to the list that `m` keeps for `a`, unless it is there already.
fn add_link(m: &mut HashMap<i32, Vec<i32>>, a: i32, b: i32)
    requires
        lists_distinct(old(m)@),
    ensures
        lists_distinct(final(m)@),
        forall|x: i32, y: i32|
            #[trigger] links(final(m)@, x, y) <==> links(old(m)@, x, y) || (x == a && y == b),
{
    let mut list: Vec<i32> = Vec::new();
    match m.get(&a) {
        Some(l) => {
            let mut i: usize = 0;
            while i < l.len()
                invariant
                    i <= l.len(),
                    list@ == l@.subrange(0, i as int),
                decreases l.len() - i,
            {
                list.push(l[i]);
                proof {
                    assert(l@.subrange(0, i + 1) == l@.subrange(0, i as int).push(l@[i as int]));
                }
                i += 1;
            }
            proof {
                assert(l@.subrange(0, l.len() as int) == l@);
            }
        },
        None => {},
    }
    let ghost before = list@;
    assert(before.no_duplicates());
    if !contains_page(&list, b) {
        list.push(b);
    }
    assert(list@.no_duplicates());
    assert(forall|y: i32| list@.contains(y) <==> before.contains(y) || y == b) by {
        assert(forall|y: i32| before.contains(y) ==> list@.contains(y)) by {
            assert(forall|k: int| 0 <= k < before.len() ==> list@[k] == before[k]);
        }
        if !before.contains(b) {
            assert(list@[before.len() as int] == b);
        }
    }
    m.insert(a, list);
}

/// `o` with `prefix` in front, when there is an `o`.
pub open spec fn prefixed(prefix: Seq<i32>, o: Option<Seq<i32>>) -> Option<Seq<i32>> {
    match o {
        Some(x) => Some(prefix + x),
        None => None,
    }
}

/// Which page must come before which other, kept as two lookups: the pages that must follow a
/// page, and the pages that must precede it.
pub struct RuleIndex {
    successors: HashMap<i32, Vec<i32>>,
    predecessors: HashMap<i32, Vec<i32>>,
}

impl RuleIndex {
    /// A rule says that page `x` must come before page `y`.
    pub closed spec fn precedes(&self, x: i32, y: i32) -> bool {
        links(self.successors@, x, y)
    }

    /// Both lookups hold the same rules, each entry once.
    pub closed spec fn wf(&self) -> bool {
        &&& lists_distinct(self.successors@)
        &&& lists_distinct(self.predecessors@)
        &&& forall|x: i32, y: i32|
            #[trigger] links(self.successors@, x, y) <==> #[trigger] links(
                self.predecessors@,
                y,
                x,
            )
    }

    /// Builds the index of `rules`, each pair `(x, y)` saying that `x` comes before `y`.
    /// A rule given twice is kept once.
    pub fn new(rules: &Vec<(i32, i32)>) -> (r: RuleIndex)
        ensures
            r.wf(),
            forall|x: i32, y: i32| #[trigger] r.precedes(x, y) <==> rules@.contains((x, y)),
    {
        let mut successors: HashMap<i32, Vec<i32>> = HashMap::new();
        let mut predecessors: HashMap<i32, Vec<i32>> = HashMap::new();
        let mut i: usize = 0;
        while i < rules.len()
            invariant
                i <= rules.len(),
                lists_distinct(successors@),
                lists_distinct(predecessors@),
                forall|x: i32, y: i32|
                    #[trigger] links(successors@, x, y) <==> rules@.subrange(0, i as int).contains(
                        (x, y),
                    ),
                forall|x: i32, y: i32|
                    #[trigger] links(predecessors@, y, x) <==> rules@.subrange(
                        0,
                        i as int,
                    ).contains((x, y)),
            decreases rules.len() - i,
        {
            let (x, y) = rules[i];
            add_link(&mut successors, x, y);
            add_link(&mut predecessors, y, x);
            proof {
                let done = rules@.subrange(0, i as int);
                assert(rules@.subrange(0, i + 1) == done.push((x, y)));
                assert(forall|p: (i32, i32)|
                    done.push((x, y)).contains(p) <==> done.contains(p) || p == (x, y)) by {
                    assert(forall|k: int| 0 <= k < done.len() ==> done.push((x, y))[k] == done[k]);
                    assert(done.push((x, y))[done.len() as int] == (x, y));
                }
                assert(forall|a: i32, b: i32|
                    #[trigger] links(successors@, a, b) <==> done.push((x, y)).contains((a, b)));
                assert(forall|a: i32, b: i32|
                    #[trigger] links(predecessors@, b, a) <==> done.push((x, y)).contains((a, b)));
            }
            i += 1;
        }
        proof {
            assert(rules@.subrange(0, rules.len() as int) == rules@);
        }
        RuleIndex { successors, predecessors }
    }

    /// Whether a rule says that `x` must come before `y`, looked up among the followers of `x`.
    pub fn must_precede(&self, x: i32, y: i32) -> (r: bool)
        requires
            self.wf(),
        ensures
            r == self.precedes(x, y),
    {
        match self.successors.get(&x) {
            Some(l) => contains_page(l, y),
            None => false,
        }
    }

    /// Whether a rule says that `x` must come before `y`, looked up among the predecessors of `y`.
    fn must_follow(&self, y: i32, x: i32) -> (r: bool)
        requires
            self.wf(),
        ensures
            r == self.precedes(x, y),
    {
        let r = match self.predecessors.get(&y) {
            Some(l) => contains_page(l, x),
            None => false,
        };
        assert(links(self.predecessors@, y, x) == links(self.successors@, x, y));
        r
    }

    /// No page of `s` stands after a page that a rule says it must come before.
    pub open spec fn orders(&self, s: Seq<i32>) -> bool {
        forall|i: int, j: int|
            0 <= i < j < s.len() ==> !self.precedes(#[trigger] s[j], #[trigger] s[i])
    }

    /// No other entry of `s` must come before the entry at position `k`.
    pub open spec fn ready_at(&self, s: Seq<i32>, k: int) -> bool {
        forall|m: int| 0 <= m < s.len() && m != k ==> !self.precedes(#[trigger] s[m], s[k])
    }

    /// Some entry of `s` is ready.
    pub open spec fn has_ready(&self, s: Seq<i32>) -> bool {
        exists|k: int| 0 <= k < s.len() && #[trigger] self.ready_at(s, k)
    }

    /// The rules among the pages of `s` form no cycle: every nonempty part of `s` holds a page
    /// that no other page of that part must precede.
    pub open spec fn acyclic_on(&self, s: Seq<i32>) -> bool {
        forall|t: Seq<i32>|
            0 < t.len() && #[trigger] t.to_multiset().subset_of(s.to_multiset()) ==> self.has_ready(
                t,
            )
    }

    /// A sequence in rule order holds no cycle of rules.
    pub proof fn lemma_ordered_acyclic(&self, o: Seq<i32>)
        requires
            self.orders(o),
        ensures
            self.acyclic_on(o),
        decreases o.len(),
    {
        broadcast use group_to_multiset_ensures, group_multiset_axioms;

        if o.len() == 0 {
            assert forall|t: Seq<i32>|
                0 < t.len() && #[trigger] t.to_multiset().subset_of(
                    o.to_multiset(),
                ) implies self.has_ready(t) by {
                assert(t.contains(t[0]));
                assert(o.to_multiset().count(t[0]) == 0);
            }
        } else {
            let h = o[0];
            let rest = o.remove(0);
            assert forall|i: int, j: int| 0 <= i < j < rest.len() implies !self.precedes(
                #[trigger] rest[j],
                #[trigger] rest[i],
            ) by {
                assert(rest[j] == o[j + 1] && rest[i] == o[i + 1]);
            }
            self.lemma_ordered_acyclic(rest);
            assert(rest.to_multiset() == o.to_multiset().remove(h));
            assert forall|t: Seq<i32>|
                0 < t.len() && #[trigger] t.to_multiset().subset_of(
                    o.to_multiset(),
                ) implies self.has_ready(t) by {
                if t.contains(h) {
                    let k = choose|k: int| 0 <= k < t.len() && t[k] == h;
                    assert forall|m: int| 0 <= m < t.len() && m != k implies !self.precedes(
                        #[trigger] t[m],
                        t[k],
                    ) by {
                        let y = t[m];
                        let tk = t.remove(k);
                        let mi = if m < k {
                            m
                        } else {
                            m - 1
                        };
                        assert(tk[mi] == y);
                        assert(tk.contains(y));
                        assert(tk.to_multiset().count(y) > 0);
                        assert(t.to_multiset().count(y) >= 1);
                        if y == h {
                            assert(t.to_multiset().count(h) >= 2);
                        }
                        assert(o.to_multiset().count(y) >= 1);
                        assert(rest.to_multiset().count(y) > 0);
                        assert(rest.contains(y));
                        let j = choose|j: int| 0 <= j < rest.len() && rest[j] == y;
                        assert(o[j + 1] == y);
                        assert(o[0] == h);
                    }
                    assert(self.ready_at(t, k));
                } else {
                    assert(t.to_multiset().count(h) == 0);
                    assert(t.to_multiset().subset_of(rest.to_multiset()));
                }
            }
        }
    }

    /// Whether `update` already stands in rule order.
    pub fn is_ordered(&self, update: &Vec<i32>) -> (r: bool)
        requires
            self.wf(),
        ensures
            r == self.orders(update@),
    {
        let mut j: usize = 0;
        while j < update.len()
            invariant
                j <= update.len(),
                self.wf(),
                forall|a: int, b: int|
                    0 <= a < b < j ==> !self.precedes(#[trigger] update@[b], #[trigger] update@[a]),
            decreases update.len() - j,
        {
            let mut i: usize = 0;
            while i < j
                invariant
                    i <= j,
                    j < update.len(),
                    self.wf(),
                    forall|a: int, b: int|
                        0 <= a < b < j ==> !self.precedes(
                            #[trigger] update@[b],
                            #[trigger] update@[a],
                        ),
                    forall|a: int| 0 <= a < i ==> !self.precedes(update@[j as int], #[trigger] update@[a]),
                decreases j - i,
            {
                if self.must_precede(update[j], update[i]) {
                    assert(self.precedes(update@[j as int], update@[i as int]));
                    return false;
                }
                i += 1;
            }
            j += 1;
        }
        true
    }

    /// The first position of `s` whose entry is ready, if any is.
    fn first_ready(&self, s: &Vec<i32>) -> (r: Option<usize>)
        requires
            self.wf(),
        ensures
            match r {
                Some(k) => k < s.len() && self.ready_at(s@, k as int) && forall|k2: int|
                    0 <= k2 < k ==> !#[trigger] self.ready_at(s@, k2),
                None => !self.has_ready(s@),
            },
    {
        let mut k: usize = 0;
        while k < s.len()
            invariant
                k <= s.len(),
                self.wf(),
                forall|k2: int| 0 <= k2 < k ==> !#[trigger] self.ready_at(s@, k2),
            decreases s.len() - k,
        {
            let mut m: usize = 0;
            let mut blocked = false;
            while m < s.len() && !blocked
                invariant
                    m <= s.len(),
                    k < s.len(),
                    self.wf(),
                    !blocked ==> forall|m2: int|
                        0 <= m2 < m && m2 != k ==> !self.precedes(#[trigger] s@[m2], s@[k as int]),
                    blocked ==> !self.ready_at(s@, k as int),
                decreases s.len() - m,
            {
                if m != k && self.must_follow(s[k], s[m]) {
                    assert(self.precedes(s@[m as int], s@[k as int]));
                    blocked = true;
                }
                m += 1;
            }
            if !blocked {
                return Some(k);
            }
            k += 1;
        }
        None
    }

    /// The first position from `k` on whose entry is ready, or `s.len()` when none is.
    pub open spec fn first_ready_from(&self, s: Seq<i32>, k: int) -> int
        decreases s.len() - k,
    {
        if 0 <= k < s.len() {
            if self.ready_at(s, k) {
                k
            } else {
                self.first_ready_from(s, k + 1)
            }
        } else {
            s.len() as int
        }
    }

    /// The order that taking, again and again, the first ready page of what is left (in the
    /// order of `s`) gives; `None` when what is left has no ready page.
    pub open spec fn kahn_order(&self, s: Seq<i32>) -> Option<Seq<i32>>
        decreases s.len(),
    {
        if s.len() == 0 {
            Some(Seq::empty())
        } else {
            let k = self.first_ready_from(s, 0);
            if 0 <= k < s.len() {
                match self.kahn_order(s.remove(k)) {
                    Some(o) => Some(seq![s[k]] + o),
                    None => None,
                }
            } else {
                None
            }
        }
    }

    /// `first_ready_from` finds the first ready position at or after `j`.
    proof fn lemma_first_ready_from(&self, s: Seq<i32>, j: int)
        requires
            0 <= j <= s.len(),
        ensures
            j <= self.first_ready_from(s, j) <= s.len(),
            self.first_ready_from(s, j) < s.len() ==> self.ready_at(s, self.first_ready_from(s, j)),
            forall|m: int| j <= m < self.first_ready_from(s, j) ==> !#[trigger] self.ready_at(s, m),
        decreases s.len() - j,
    {
        if j < s.len() && !self.ready_at(s, j) {
            self.lemma_first_ready_from(s, j + 1);
        }
    }

    /// Puts the pages of `update` in rule order. Each round takes the first page, in the order
    /// of `update`, that no page still waiting must precede (its in-degree among the waiting
    /// pages is zero). Fails when the rules among the pages form a cycle.
    pub fn topological_sort(&self, update: &Vec<i32>) -> (r: Result<Vec<i32>, SortError>)
        requires
            self.wf(),
        ensures
            match r {
                Ok(o) => self.kahn_order(update@) == Some(o@),
                Err(_) => self.kahn_order(update@) is None,
            },
            r is Err <==> !self.acyclic_on(update@),
            r is Ok ==> r->Ok_0@.to_multiset() == update@.to_multiset() && self.orders(r->Ok_0@),
            self.orders(update@) ==> r is Ok && r->Ok_0@ == update@,
    {
        broadcast use group_to_multiset_ensures, group_multiset_axioms;

        let mut rest: Vec<i32> = Vec::new();
        let mut i: usize = 0;
        while i < update.len()
            invariant
                i <= update.len(),
                rest@ == update@.subrange(0, i as int),
            decreases update.len() - i,
        {
            rest.push(update[i]);
            proof {
                assert(update@.subrange(0, i + 1) == update@.subrange(0, i as int).push(
                    update@[i as int],
                ));
            }
            i += 1;
        }
        assert(rest@ == update@.subrange(0, update.len() as int));
        assert(rest@ == update@);
        let mut sorted: Vec<i32> = Vec::new();
        assert(sorted@.to_multiset().add(rest@.to_multiset()) =~= update@.to_multiset());
        proof {
            if let Some(o) = self.kahn_order(rest@) {
                assert(sorted@ + o =~= o);
            }
        }
        while rest.len() > 0
            invariant
                self.wf(),
                sorted@.to_multiset().add(rest@.to_multiset()) == update@.to_multiset(),
                self.orders(sorted@),
                forall|i: int, m: int|
                    0 <= i < sorted.len() && 0 <= m < rest.len() ==> !self.precedes(
                        #[trigger] rest@[m],
                        #[trigger] sorted@[i],
                    ),
                self.orders(update@) ==> sorted@ + rest@ == update@,
                self.kahn_order(update@) == prefixed(sorted@, self.kahn_order(rest@)),
            decreases rest.len(),
        {
            proof {
                if self.orders(update@) {
                    let n = sorted.len() as int;
                    assert forall|m: int| 0 <= m < rest.len() && m != 0 implies !self.precedes(
                        #[trigger] rest@[m],
                        rest@[0],
                    ) by {
                        assert(rest@[m] == (sorted@ + rest@)[n + m]);
                        assert(rest@[0] == (sorted@ + rest@)[n]);
                    }
                    assert(self.ready_at(rest@, 0));
                }
            }
            match self.first_ready(&rest) {
                None => {
                    proof {
                        assert(rest@.to_multiset().subset_of(update@.to_multiset()));
                        assert(!self.has_ready(rest@));
                        self.lemma_first_ready_from(rest@, 0);
                        let f = self.first_ready_from(rest@, 0);
                        if f < rest@.len() {
                            assert(self.ready_at(rest@, f));
                        }
                        assert(self.kahn_order(rest@) is None);
                    }
                    return Err(SortError::CycleDetected);
                },
                Some(k) => {
                    let ghost old_sorted = sorted@;
                    let ghost old_rest = rest@;
                    proof {
                        self.lemma_first_ready_from(rest@, 0);
                        let f = self.first_ready_from(rest@, 0);
                        if f < k {
                            assert(self.ready_at(rest@, f));
                        }
                        assert(f == k);
                    }
                    let x = rest.remove(k);
                    sorted.push(x);
                    proof {
                        assert(sorted@ == old_sorted.push(x));
                        assert(rest@ == old_rest.remove(k as int));
                        assert(old_rest.contains(x));
                        vstd::seq_lib::to_multiset_contains(old_rest, x);
                        vstd::seq_lib::to_multiset_build(old_sorted, x);
                        vstd::seq_lib::to_multiset_remove(old_rest, k as int);
                        assert(old_rest.to_multiset().count(x) > 0);
                        assert(sorted@.to_multiset().add(rest@.to_multiset()) =~= update@.to_multiset());
                        assert forall|i: int, j: int|
                            0 <= i < j < sorted.len() implies !self.precedes(
                                #[trigger] sorted@[j],
                                #[trigger] sorted@[i],
                            ) by {
                            if j == sorted.len() - 1 {
                                assert(sorted@[j] == old_rest[k as int]);
                                assert(old_sorted[i] == sorted@[i]);
                            } else {
                                assert(old_sorted[i] == sorted@[i] && old_sorted[j] == sorted@[j]);
                            }
                        }
                        assert forall|i: int, m: int|
                            0 <= i < sorted.len() && 0 <= m < rest.len() implies !self.precedes(
                                #[trigger] rest@[m],
                                #[trigger] sorted@[i],
                            ) by {
                            let om = if m < k {
                                m
                            } else {
                                m + 1
                            };
                            assert(rest@[m] == old_rest[om]);
                            if i < old_sorted.len() {
                                assert(sorted@[i] == old_sorted[i]);
                            } else {
                                assert(sorted@[i] == old_rest[k as int]);
                            }
                        }
                        if self.orders(update@) {
                            assert(sorted@ + rest@ =~= old_sorted + old_rest);
                        }
                        if let Some(o) = self.kahn_order(rest@) {
                            assert(old_sorted + (seq![x] + o) =~= sorted@ + o);
                        }
                    }
                },
            }
        }
        proof {
            assert(sorted@.to_multiset() =~= update@.to_multiset());
            self.lemma_ordered_acyclic(sorted@);
            if self.orders(update@) {
                assert(sorted@ + rest@ =~= sorted@);
            }
            assert(sorted@ + Seq::<i32>::empty() =~= sorted@);
        }
        Ok(sorted)
    }

    /// Without rules every sequence stands in rule order, so `topological_sort` hands it back
    /// unchanged.
    pub proof fn lemma_no_rules_orders_all(&self, s: Seq<i32>)
        requires
            forall|x: i32, y: i32| !#[trigger] self.precedes(x, y),
        ensures
            self.orders(s),
    {
    }
}

/// The entry in the middle of `s`, at position `len / 2`.
pub open spec fn middle(s: Seq<i32>) -> int {
    s[(s.len() / 2) as int] as int
}

/// The sum of the middles of those of `updates` that stand in rule order.
pub open spec fn ordered_middles(index: RuleIndex, updates: Seq<Vec<i32>>) -> int
    decreases updates.len(),
{
    if updates.len() == 0 {
        0
    } else {
        ordered_middles(index, updates.drop_last()) + if index.orders(updates.last()@) {
            middle(updates.last()@)
        } else {
            0
        }
    }
}

/// The sum, over the updates out of rule order, of the middle of the order that
/// `topological_sort` gives them.
pub open spec fn resorted_middles(index: RuleIndex, updates: Seq<Vec<i32>>) -> int
    decreases updates.len(),
{
    if updates.len() == 0 {
        0
    } else {
        resorted_middles(index, updates.drop_last()) + if index.orders(updates.last()@) {
            0
        } else {
            match index.kahn_order(updates.last()@) {
                Some(o) => middle(o),
                None => 0,
            }
        }
    }
}

/// Scores `updates`: the first total adds the middle page of each update already in rule order,
/// the second the middle page of each other update once put in order. Fails when the rules
/// among the pages of some update form a cycle.
pub fn compute(index: &RuleIndex, updates: &Vec<Vec<i32>>) -> (r: Result<(i64, i64), SortError>)
    requires
        index.wf(),
        updates.len() <= i32::MAX,
        forall|i: int| 0 <= i < updates.len() ==> #[trigger] updates[i].len() > 0,
    ensures
        r is Err <==> exists|i: int|
            0 <= i < updates.len() && !index.acyclic_on(#[trigger] updates[i]@),
        r matches Ok((in_order, reordered)) ==> in_order == ordered_middles(*index, updates@)
            && reordered == resorted_middles(*index, updates@),
{
    let mut in_order: i64 = 0;
    let mut reordered: i64 = 0;
    let mut i: usize = 0;
    while i < updates.len()
        invariant
            i <= updates.len(),
            updates.len() <= i32::MAX,
            index.wf(),
            forall|k: int| 0 <= k < updates.len() ==> #[trigger] updates[k].len() > 0,
            forall|k: int| 0 <= k < i ==> index.acyclic_on(#[trigger] updates[k]@),
            in_order == ordered_middles(*index, updates@.subrange(0, i as int)),
            reordered == resorted_middles(*index, updates@.subrange(0, i as int)),
            -(i as int) * 0x8000_0000 <= in_order <= (i as int) * 0x8000_0000,
            -(i as int) * 0x8000_0000 <= reordered <= (i as int) * 0x8000_0000,
        decreases updates.len() - i,
    {
        let update = &updates[i];
        let ghost done = updates@.subrange(0, i as int);
        let ghost next = updates@.subrange(0, i + 1);
        assert(next.drop_last() == done);
        assert(next.last() == *update);
        assert(update.len() > 0);
        if index.is_ordered(update) {
            in_order = in_order + update[update.len() / 2] as i64;
            proof {
                index.lemma_ordered_acyclic(update@);
            }
        } else {
            match index.topological_sort(update) {
                Err(e) => {
                    return Err(e);
                },
                Ok(s) => {
                    proof {
                        s@.to_multiset_ensures();
                        update@.to_multiset_ensures();
                    }
                    assert(s.len() == update.len());
                    reordered = reordered + s[s.len() / 2] as i64;
                },
            }
        }
        i += 1;
    }
    proof {
        assert(updates@.subrange(0, updates.len() as int) == updates@);
    }
    Ok((in_order, reordered))
}

/// Without rules no update is out of order, so the second score of `compute` is 0.
pub proof fn lemma_no_rules_nothing_resorted(index: RuleIndex, updates: Seq<Vec<i32>>)
    requires
        forall|x: i32, y: i32| !#[trigger] index.precedes(x, y),
    ensures
        resorted_middles(index, updates) == 0,
    decreases updates.len(),
{
    if updates.len() > 0 {
        index.lemma_no_rules_orders_all(updates.last()@);
        lemma_no_rules_nothing_resorted(index, updates.drop_last());
    }
}

} // verus!
