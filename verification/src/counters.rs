//! CSS counters: scopes of named counters, `counter-reset`,
//! `counter-increment`, the `list-item` counter and per-node snapshots
//! taken during a pre-order walk of the document.

use std::collections::HashMap;
use vstd::prelude::*;
use vstd::pervasive::VecAdditionalExecFns;
use crate::std_text::clamp_i32;
use crate::counter_style::{counter_text, counter_value_defined, generate_counter_value, CounterStyle};

verus! {

broadcast use vstd::std_specs::hash::group_hash_axioms;

/// A single counter scope entry: a counter with its current value.
#[derive(Clone, Debug)]
pub struct CounterEntry {
    /// Counter name.
    pub name: String,
    /// Current counter value.
    pub value: i32,
    /// Whether this is a reversed counter (from `counter-reset: reversed(name)`).
    pub is_reversed: bool,
}

/// One item of a `counter-reset` or `counter-increment` list.
#[derive(Clone, Debug)]
pub struct CounterPair {
    /// Counter name.
    pub name: String,
    /// The value to reset to, or to add.
    pub value: i32,
    /// Whether the reset is `reversed(name)`.
    pub is_reversed: bool,
}

/// The counters visible at one point of the walk, outermost first.
/// The innermost counter with a given name is the last one in the list.
#[derive(Clone, Debug, Default)]
pub struct CounterScope {
    entries: Vec<CounterEntry>,
}

/// Per-node counter snapshot: the counters at the moment the node was visited.
#[derive(Clone, Debug, Default)]
pub struct CounterSnapshot(pub CounterScope);

impl View for CounterScope {
    type V = Seq<CounterEntry>;

    closed spec fn view(&self) -> Seq<CounterEntry> {
        self.entries@
    }
}

/// Index of the innermost (last) entry named `name`, or -1.
pub open spec fn innermost_index(entries: Seq<CounterEntry>, name: Seq<char>) -> int
    decreases entries.len(),
{
    if entries.len() == 0 {
        -1
    } else if entries.last().name@ == name {
        entries.len() - 1
    } else {
        innermost_index(entries.drop_last(), name)
    }
}

/// The value of the innermost counter named `name`, or 0 if there is none.
pub open spec fn counter_get(entries: Seq<CounterEntry>, name: Seq<char>) -> i32 {
    let i = innermost_index(entries, name);
    if i >= 0 {
        entries[i].value
    } else {
        0
    }
}

/// The values of all counters named `name`, outermost first.
pub open spec fn counter_get_all(entries: Seq<CounterEntry>, name: Seq<char>) -> Seq<i32>
    decreases entries.len(),
{
    if entries.len() == 0 {
        seq![]
    } else if entries.last().name@ == name {
        counter_get_all(entries.drop_last(), name).push(entries.last().value)
    } else {
        counter_get_all(entries.drop_last(), name)
    }
}

/// The entry that a `counter-reset` item creates.
pub open spec fn reset_entry(p: CounterPair) -> CounterEntry {
    CounterEntry { name: p.name, value: p.value, is_reversed: p.is_reversed }
}

/// `counter-reset`: every item creates a new counter instance, shadowing
/// any counter of the same name.
pub open spec fn apply_resets(entries: Seq<CounterEntry>, reset: Seq<CounterPair>) -> Seq<CounterEntry> {
    entries + reset.map_values(|p: CounterPair| reset_entry(p))
}

/// `entries` with the value of entry `i` replaced.
pub open spec fn with_value(entries: Seq<CounterEntry>, i: int, value: i32) -> Seq<CounterEntry> {
    entries.update(i, CounterEntry { value: value, ..entries[i] })
}

/// One `counter-increment` item: adds to the innermost counter of that name
/// (saturating), or creates a counter starting at the increment.
pub open spec fn increment_one(entries: Seq<CounterEntry>, p: CounterPair) -> Seq<CounterEntry> {
    let i = innermost_index(entries, p.name@);
    if i >= 0 {
        with_value(entries, i, clamp_i32(entries[i].value + p.value) as i32)
    } else {
        entries.push(CounterEntry { name: p.name, value: p.value, is_reversed: false })
    }
}

/// `counter-increment`: the items applied one after another.
pub open spec fn apply_increments(entries: Seq<CounterEntry>, increment: Seq<CounterPair>) -> Seq<CounterEntry>
    decreases increment.len(),
{
    if increment.len() == 0 {
        entries
    } else {
        increment_one(apply_increments(entries, increment.drop_last()), increment.last())
    }
}

impl CounterEntry {
    /// A copy of the entry.
    pub fn duplicate(&self) -> (e: CounterEntry)
        ensures
            e == *self,
    {
        CounterEntry { name: self.name.clone(), value: self.value, is_reversed: self.is_reversed }
    }
}

impl CounterScope {
    /// A scope with no counters.
    pub fn empty() -> (s: CounterScope)
        ensures
            s@ == Seq::<CounterEntry>::empty(),
    {
        CounterScope { entries: Vec::new() }
    }

    /// A copy of the scope.
    pub fn duplicate(&self) -> (s: CounterScope)
        ensures
            s@ == self@,
    {
        let mut entries: Vec<CounterEntry> = Vec::new();
        let mut i: usize = 0;
        while i < self.entries.len()
            invariant
                i <= self.entries.len(),
                entries@ =~= self.entries@.take(i as int),
            decreases self.entries.len() - i,
        {
            entries.push(self.entries[i].duplicate());
            assert(self.entries@.take(i + 1) =~= self.entries@.take(i as int).push(self.entries@[i as int]));
            i = i + 1;
        }
        assert(self.entries@.take(self.entries.len() as int) =~= self.entries@);
        CounterScope { entries }
    }

    /// The entries of the scope, outermost first.
    pub fn entries(&self) -> (es: &Vec<CounterEntry>)
        ensures
            es@ == self@,
    {
        &self.entries
    }

    /// Index of the innermost (last) entry named `name`.
    fn find(&self, name: &String) -> (r: Option<usize>)
        ensures
            match r {
                Some(i) => i as int == innermost_index(self@, name@),
                None => innermost_index(self@, name@) == -1,
            },
            innermost_index(self@, name@) < self@.len(),
    {
        let mut i: usize = self.entries.len();
        assert(self.entries@.take(i as int) =~= self.entries@);
        while i > 0
            invariant
                i <= self.entries.len(),
                innermost_index(self.entries@, name@) == innermost_index(self.entries@.take(i as int), name@),
            decreases i,
        {
            let ghost pre = self.entries@.take(i as int);
            assert(pre.drop_last() =~= self.entries@.take(i - 1));
            if self.entries[i - 1].name == *name {
                return Some(i - 1);
            }
            i = i - 1;
        }
        assert(self.entries@.take(0) =~= Seq::<CounterEntry>::empty());
        proof {
            lemma_innermost_index_bound(self.entries@, name@);
        }
        None
    }

    /// Get value of a named counter, or 0 if not found.
    pub fn get(&self, name: &String) -> (v: i32)
        ensures
            v == counter_get(self@, name@),
    {
        proof {
            lemma_innermost_index_bound(self@, name@);
        }
        match self.find(name) {
            Some(i) => self.entries[i].value,
            None => 0,
        }
    }

    /// Get all values of a named counter, outermost first (for `counters()`).
    pub fn get_all(&self, name: &String) -> (vs: Vec<i32>)
        ensures
            vs@ == counter_get_all(self@, name@),
    {
        let mut vs: Vec<i32> = Vec::new();
        let mut i: usize = 0;
        while i < self.entries.len()
            invariant
                i <= self.entries.len(),
                vs@ == counter_get_all(self.entries@.take(i as int), name@),
            decreases self.entries.len() - i,
        {
            let ghost pre = self.entries@.take(i + 1);
            assert(pre.drop_last() =~= self.entries@.take(i as int));
            if self.entries[i].name == *name {
                vs.push(self.entries[i].value);
            }
            i = i + 1;
        }
        assert(self.entries@.take(self.entries.len() as int) =~= self.entries@);
        vs
    }

    /// Push a new counter instance for every `counter-reset` item.
    pub fn apply_reset(&mut self, reset: &Vec<CounterPair>)
        ensures
            final(self)@ == apply_resets(old(self)@, reset@),
    {
        let ghost start = self.entries@;
        let mut i: usize = 0;
        while i < reset.len()
            invariant
                i <= reset.len(),
                self.entries@ =~= apply_resets(start, reset@.take(i as int)),
            decreases reset.len() - i,
        {
            let pair = &reset[i];
            self.entries.push(CounterEntry {
                name: pair.name.clone(),
                value: pair.value,
                is_reversed: pair.is_reversed,
            });
            assert(reset@.take(i + 1) =~= reset@.take(i as int).push(reset@[i as int]));
            i = i + 1;
        }
        assert(reset@.take(reset.len() as int) =~= reset@);
    }

    /// Apply one `counter-increment` item.
    fn increment_by(&mut self, pair: &CounterPair)
        ensures
            final(self)@ == increment_one(old(self)@, *pair),
    {
        match self.find(&pair.name) {
            Some(i) => {
                let old_entry = self.entries[i].duplicate();
                let value = old_entry.value.saturating_add(pair.value);
                self.entries.set(i, CounterEntry { value: value, ..old_entry });
            },
            None => {
                self.entries.push(CounterEntry {
                    name: pair.name.clone(),
                    value: pair.value,
                    is_reversed: false,
                });
            },
        }
    }

    /// Apply every `counter-increment` item in order.
    pub fn apply_increment(&mut self, increment: &Vec<CounterPair>)
        ensures
            final(self)@ == apply_increments(old(self)@, increment@),
    {
        let ghost start = self.entries@;
        let mut i: usize = 0;
        while i < increment.len()
            invariant
                i <= increment.len(),
                self@ == apply_increments(start, increment@.take(i as int)),
            decreases increment.len() - i,
        {
            self.increment_by(&increment[i]);
            assert(increment@.take(i + 1).drop_last() =~= increment@.take(i as int));
            i = i + 1;
        }
        assert(increment@.take(increment.len() as int) =~= increment@);
    }
}

/// The innermost index is -1 or a valid index of an entry with that name.
pub proof fn lemma_innermost_index_bound(entries: Seq<CounterEntry>, name: Seq<char>)
    ensures
        -1 <= innermost_index(entries, name) < entries.len(),
        innermost_index(entries, name) >= 0 ==> entries[innermost_index(entries, name)].name@ == name,
    decreases entries.len(),
{
    if entries.len() > 0 && entries.last().name@ != name {
        lemma_innermost_index_bound(entries.drop_last(), name);
    }
}

/// The name of the counter that list items count.
pub open spec fn list_item_name() -> Seq<char> {
    "list-item"@
}

/// The counter state of a whole walk: a stack of scopes, one level per
/// element being visited, and the snapshot taken at each visited node.
pub struct CounterState {
    /// Counter scope stack during traversal; never empty.
    scope_stack: Vec<CounterScope>,
    /// Snapshots: node to the counters at the point the node was visited.
    snapshots: HashMap<usize, CounterSnapshot>,
}

/// The counters of every snapshot.
pub open spec fn snapshot_views(m: Map<usize, CounterSnapshot>) -> Map<usize, Seq<CounterEntry>> {
    m.map_values(|s: CounterSnapshot| s.0@)
}

/// What a node's snapshot gives for `counter(name)`: the innermost value, or 0
/// for a node without a snapshot.
pub open spec fn snapshot_value(m: Map<usize, CounterSnapshot>, node: usize, name: Seq<char>) -> i32 {
    if m.contains_key(node) {
        counter_get(m[node].0@, name)
    } else {
        0
    }
}

/// What a node's snapshot gives for `counters(name)`: all values, outermost
/// first, or none for a node without a snapshot.
pub open spec fn snapshot_values(m: Map<usize, CounterSnapshot>, node: usize, name: Seq<char>) -> Seq<i32> {
    if m.contains_key(node) {
        counter_get_all(m[node].0@, name)
    } else {
        seq![]
    }
}

/// The first `keep` counters of a scope (all of them if it has fewer).
pub open spec fn truncated(scope: Seq<CounterEntry>, keep: int) -> Seq<CounterEntry> {
    if 0 <= keep <= scope.len() {
        scope.take(keep)
    } else {
        scope
    }
}

/// The scope stack after an element begins: a copy of the innermost scope on top.
pub open spec fn pushed_scopes(scopes: Seq<Seq<CounterEntry>>) -> Seq<Seq<CounterEntry>> {
    scopes.push(scopes.last())
}

/// The scope stack after an element ends: its scope, cut to the `keep`
/// counters it created for itself, replaces its parent's; the root stays.
pub open spec fn popped_scopes(scopes: Seq<Seq<CounterEntry>>, keep: int) -> Seq<Seq<CounterEntry>> {
    if scopes.len() > 1 {
        scopes.drop_last().drop_last().push(truncated(scopes.last(), keep))
    } else {
        scopes
    }
}

/// Beginning an element and ending it again leaves every scope below the
/// innermost as it was, and the innermost cut to the first `keep` counters;
/// with all of its counters kept (`keep` at least its length), the scope
/// stack is exactly as it was.
pub proof fn law_push_then_pop_restores(scopes: Seq<Seq<CounterEntry>>, keep: int)
    requires
        scopes.len() >= 1,
        keep >= 0,
    ensures
        popped_scopes(pushed_scopes(scopes), keep) == scopes.drop_last().push(truncated(scopes.last(), keep)),
        keep >= scopes.last().len() ==> popped_scopes(pushed_scopes(scopes), keep) == scopes,
{
    let p = pushed_scopes(scopes);
    assert(p.drop_last().drop_last() =~= scopes.drop_last());
    if keep >= scopes.last().len() {
        assert(truncated(scopes.last(), keep) =~= scopes.last());
        assert(scopes.drop_last().push(scopes.last()) =~= scopes);
    }
}

impl CounterState {
    /// The scopes on the stack, outermost first.
    pub closed spec fn scopes(&self) -> Seq<Seq<CounterEntry>> {
        self.scope_stack@.map_values(|s: CounterScope| s@)
    }

    /// The snapshots taken so far, by node.
    pub closed spec fn snapshot_map(&self) -> Map<usize, CounterSnapshot> {
        self.snapshots@
    }

    /// The snapshots taken so far, by node.
    pub fn snapshots(&self) -> (m: &HashMap<usize, CounterSnapshot>)
        ensures
            m@ == self.snapshot_map(),
    {
        &self.snapshots
    }

    /// The stack holds at least the root scope.
    pub open spec fn wf(&self) -> bool {
        self.scopes().len() >= 1
    }

    /// The innermost scope.
    pub open spec fn top(&self) -> Seq<CounterEntry> {
        self.scopes().last()
    }

    /// A state whose only scope holds the implicit `list-item` counter at 0,
    /// with no snapshots.
    pub fn new() -> (s: Self)
        ensures
            s.wf(),
            s.scopes().len() == 1,
            s.top().len() == 1,
            s.top()[0].name@ == list_item_name(),
            s.top()[0].value == 0,
            !s.top()[0].is_reversed,
            s.snapshot_map() == Map::<usize, CounterSnapshot>::empty(),
    {
        let mut root_scope = CounterScope::empty();
        // The `list-item` counter is implicitly defined at the root.
        root_scope.entries.push(CounterEntry { name: "list-item".to_owned(), value: 0, is_reversed: false });
        let mut scope_stack: Vec<CounterScope> = Vec::new();
        scope_stack.push(root_scope);
        let s = CounterState { scope_stack, snapshots: HashMap::new() };
        assert(s.scopes() =~= seq![root_scope@]);
        s
    }

    fn current_scope(&self) -> (s: &CounterScope)
        requires
            self.wf(),
        ensures
            s@ == self.top(),
    {
        &self.scope_stack[self.scope_stack.len() - 1]
    }

    /// Remove the innermost scope to change it; `put_back_scope` restores it.
    fn take_current_scope(&mut self) -> (s: CounterScope)
        requires
            old(self).wf(),
        ensures
            s@ == old(self).top(),
            final(self).scopes() == old(self).scopes().drop_last(),
            final(self).snapshots == old(self).snapshots,
    {
        let s = self.scope_stack.pop().unwrap();
        assert(self.scopes() =~= old(self).scopes().drop_last());
        s
    }

    fn put_back_scope(&mut self, s: CounterScope)
        ensures
            final(self).scopes() == old(self).scopes().push(s@),
            final(self).snapshots == old(self).snapshots,
    {
        self.scope_stack.push(s);
        assert(self.scopes() =~= old(self).scopes().push(s@));
    }

    /// Push a new scope (child element begins): a copy of the innermost one.
    fn push_scope(&mut self)
        requires
            old(self).wf(),
        ensures
            final(self).scopes() == pushed_scopes(old(self).scopes()),
            final(self).snapshots == old(self).snapshots,
    {
        let parent = self.current_scope().duplicate();
        self.put_back_scope(parent);
    }

    /// Pop scope (child element ends). The counters the element created for
    /// itself (the first `keep` entries of its scope) stay in force for its
    /// following siblings, with the values they have now; counters that its
    /// descendants created go. The root scope is never popped.
    fn pop_scope(&mut self, keep: usize)
        requires
            old(self).wf(),
        ensures
            final(self).wf(),
            final(self).scopes() == popped_scopes(old(self).scopes(), keep as int),
            final(self).snapshots == old(self).snapshots,
    {
        if self.scope_stack.len() > 1 {
            let mut child = self.take_current_scope();
            child.entries.truncate(keep);
            let _ = self.take_current_scope();
            self.put_back_scope(child);
        }
    }

    /// Apply `counter-reset`: create new counter instances in the current scope.
    fn apply_reset(&mut self, reset: &Vec<CounterPair>)
        requires
            old(self).wf(),
        ensures
            final(self).scopes() == old(self).scopes().drop_last().push(apply_resets(old(self).top(), reset@)),
            final(self).snapshots == old(self).snapshots,
    {
        let mut scope = self.take_current_scope();
        scope.apply_reset(reset);
        self.put_back_scope(scope);
    }

    /// Apply `counter-increment`: increment the innermost counters named.
    fn apply_increment(&mut self, increment: &Vec<CounterPair>)
        requires
            old(self).wf(),
        ensures
            final(self).scopes() == old(self).scopes().drop_last().push(
                apply_increments(old(self).top(), increment@),
            ),
            final(self).snapshots == old(self).snapshots,
    {
        let mut scope = self.take_current_scope();
        scope.apply_increment(increment);
        self.put_back_scope(scope);
    }

    /// Snapshot the current scope for a node (used for `::before` / `::after` lookups).
    fn snapshot_for(&mut self, node: usize)
        requires
            old(self).wf(),
        ensures
            final(self).scopes() == old(self).scopes(),
            final(self).snapshots@.dom() == old(self).snapshots@.dom().insert(node),
            snapshot_views(final(self).snapshots@) == snapshot_views(old(self).snapshots@).insert(node, old(self).top()),
    {
        let snapshot = CounterSnapshot(self.current_scope().duplicate());
        self.snapshots.insert(node, snapshot);
        assert(snapshot_views(self.snapshots@) =~= snapshot_views(old(self).snapshots@).insert(node, old(self).top()));
    }

    /// Get counter value for a node: what `counter(name)` shows there.
    pub fn counter_value(&self, node: usize, name: &String) -> (v: i32)
        ensures
            v == snapshot_value(self.snapshot_map(), node, name@),
    {
        match self.snapshots.get(&node) {
            Some(s) => s.0.get(name),
            None => 0,
        }
    }

    /// Get all counter values for a node (for `counters()`).
    pub fn counter_all_values(&self, node: usize, name: &String) -> (vs: Vec<i32>)
        ensures
            vs@ == snapshot_values(self.snapshot_map(), node, name@),
    {
        match self.snapshots.get(&node) {
            Some(s) => s.0.get_all(name),
            None => Vec::new(),
        }
    }
}

/// The counter properties of a styled element, as the walk reads them.
#[derive(Clone, Debug)]
pub struct ElementCounters {
    /// `display: none`: only the element's resets apply, and its children
    /// are not walked.
    pub display_none: bool,
    /// The element's display type is `list-item`.
    pub is_list_item: bool,
    /// The element's `counter-reset` items.
    pub counter_reset: Vec<CounterPair>,
    /// The element's `counter-increment` items.
    pub counter_increment: Vec<CounterPair>,
}

/// What a document node is to the counter walk.
#[derive(Clone, Debug)]
pub enum NodeCounters {
    /// A text node, comment or other non-element.
    NotElement,
    /// An element without style data (`<script>`, `<head>`, shadow internals).
    Unstyled,
    /// A styled element and its counter properties.
    Element(ElementCounters),
}

/// A document node and its flat-tree children, as the counter walk sees them.
#[derive(Debug)]
pub struct CounterNode {
    /// The node's identity, under which its snapshot is stored.
    pub id: usize,
    /// What the node is to the walk.
    pub counters: NodeCounters,
    /// The node's children in flat-tree order.
    pub children: Vec<CounterNode>,
}

/// Whether `counter-increment` names the `list-item` counter itself.
pub open spec fn mentions_list_item(increment: Seq<CounterPair>) -> bool {
    exists|i: int| 0 <= i < increment.len() && #[trigger] increment[i].name@ == list_item_name()
}

/// The automatic `list-item` step of a list item whose `counter-increment`
/// does not name `list-item`: the innermost `list-item` counter goes one down
/// if it is reversed and one up otherwise (saturating).
pub open spec fn list_item_step(entries: Seq<CounterEntry>, st: ElementCounters) -> Seq<CounterEntry> {
    let i = innermost_index(entries, list_item_name());
    if st.is_list_item && !mentions_list_item(st.counter_increment@) && i >= 0 {
        let v = entries[i].value;
        with_value(entries, i, if entries[i].is_reversed { clamp_i32(v - 1) as i32 } else { clamp_i32(v + 1) as i32 })
    } else {
        entries
    }
}

/// The counters an element sees, given those of its parent: resets, then
/// increments, then the `list-item` step; under `display: none` only the
/// resets.
pub open spec fn element_scope(entries: Seq<CounterEntry>, st: ElementCounters) -> Seq<CounterEntry> {
    if st.display_none {
        apply_resets(entries, st.counter_reset@)
    } else {
        list_item_step(apply_increments(apply_resets(entries, st.counter_reset@), st.counter_increment@), st)
    }
}

/// Walking `node` in document order from the counters `scope` with the
/// snapshots `snaps`: the new snapshots, and the counters that the next node
/// in document order after `node`'s subtree starts from. A styled element
/// records the counters it sees; its children (unless it is `display: none`)
/// each continue from the counters their preceding sibling left; after the
/// subtree, the counters the element created for itself stay, with the values
/// they have reached, and those its descendants created go.
pub open spec fn walk_spec(
    node: CounterNode,
    scope: Seq<CounterEntry>,
    snaps: Map<usize, Seq<CounterEntry>>,
) -> (Map<usize, Seq<CounterEntry>>, Seq<CounterEntry>)
    decreases node,
{
    match node.counters {
        NodeCounters::Element(st) => {
            let own = element_scope(scope, st);
            let snaps1 = snaps.insert(node.id, own);
            if st.display_none {
                (snaps1, own)
            } else {
                let r = walk_children(node.children@, own, snaps1);
                (r.0, truncated(r.1, own.len() as int))
            }
        },
        _ => (snaps, scope),
    }
}

/// Walking `children` in order, each continuing from the counters the
/// previous one left, starting from `scope`.
pub open spec fn walk_children(
    children: Seq<CounterNode>,
    scope: Seq<CounterEntry>,
    snaps: Map<usize, Seq<CounterEntry>>,
) -> (Map<usize, Seq<CounterEntry>>, Seq<CounterEntry>)
    decreases children,
{
    if children.len() == 0 {
        (snaps, scope)
    } else {
        let r = walk_children(children.drop_last(), scope, snaps);
        walk_spec(children.last(), r.1, r.0)
    }
}

impl CounterState {
    /// The automatic `list-item` step on the innermost scope.
    fn step_list_item(&mut self, st: &ElementCounters, has_list_item_increment: bool)
        requires
            old(self).wf(),
            has_list_item_increment == mentions_list_item(st.counter_increment@),
        ensures
            final(self).scopes() == old(self).scopes().drop_last().push(list_item_step(old(self).top(), *st)),
            final(self).snapshots == old(self).snapshots,
    {
        let mut scope = self.take_current_scope();
        if !has_list_item_increment && st.is_list_item {
            let list_item = "list-item".to_owned();
            proof {
                lemma_innermost_index_bound(scope@, list_item_name());
            }
            match scope.find(&list_item) {
                Some(i) => {
                    let entry = scope.entries[i].duplicate();
                    let value = if entry.is_reversed {
                        entry.value.saturating_sub(1)
                    } else {
                        entry.value.saturating_add(1)
                    };
                    scope.entries.set(i, CounterEntry { value: value, ..entry });
                },
                None => {},
            }
        }
        self.put_back_scope(scope);
    }
}

/// Whether an increment list names `list-item`.
fn names_list_item(increment: &Vec<CounterPair>) -> (b: bool)
    ensures
        b == mentions_list_item(increment@),
{
    let list_item = "list-item".to_owned();
    let mut i: usize = 0;
    while i < increment.len()
        invariant
            i <= increment.len(),
            list_item@ == list_item_name(),
            forall|k: int| 0 <= k < i ==> increment@[k].name@ != list_item_name(),
        decreases increment.len() - i,
    {
        if increment[i].name == list_item {
            return true;
        }
        i = i + 1;
    }
    false
}

/// Walk the document tree building the counter state, in pre-order: every
/// styled element's snapshot holds the counters it sees, and the innermost
/// scope ends up holding the counters after the whole tree.
pub fn build_counter_state(root: &CounterNode, state: &mut CounterState)
    requires
        old(state).wf(),
    ensures
        final(state).wf(),
        final(state).scopes() == old(state).scopes().drop_last().push(
            walk_spec(*root, old(state).top(), snapshot_views(old(state).snapshot_map())).1,
        ),
        snapshot_views(final(state).snapshot_map()) == walk_spec(
            *root,
            old(state).top(),
            snapshot_views(old(state).snapshot_map()),
        ).0,
{
    walk_node(root, state);
}

/// Visit one node: a styled element gets its own copy of the counters,
/// applies its resets, increments and `list-item` step, takes its snapshot,
/// has its children visited in order, and hands the counters it created,
/// with their current values, on to the node that follows it.
fn walk_node(node: &CounterNode, state: &mut CounterState)
    requires
        old(state).wf(),
    ensures
        final(state).wf(),
        final(state).scopes() == old(state).scopes().drop_last().push(
            walk_spec(*node, old(state).top(), snapshot_views(old(state).snapshots@)).1,
        ),
        snapshot_views(final(state).snapshots@) == walk_spec(
            *node,
            old(state).top(),
            snapshot_views(old(state).snapshots@),
        ).0,
    decreases node,
{
    // Only styled element nodes take part.
    let st = match &node.counters {
        NodeCounters::Element(st) => st,
        _ => {
            assert(old(state).scopes() =~= old(state).scopes().drop_last().push(old(state).top()));
            return;
        },
    };
    let ghost parent = state.top();
    let ghost outer = state.scopes();
    state.push_scope();
    // 1. Apply counter-reset (creates new counters), also under display: none.
    if st.counter_reset.len() > 0 {
        state.apply_reset(&st.counter_reset);
    }
    assert(state.top() =~= apply_resets(parent, st.counter_reset@));
    if !st.display_none {
        // 2. Apply counter-increment.
        let has_list_item_increment = names_list_item(&st.counter_increment);
        if st.counter_increment.len() > 0 {
            state.apply_increment(&st.counter_increment);
        }
        assert(state.top() == apply_increments(apply_resets(parent, st.counter_reset@), st.counter_increment@));
        // 3. The list-item counter steps on list items, unless incremented explicitly.
        state.step_list_item(st, has_list_item_increment);
    }
    let ghost own = element_scope(parent, *st);
    assert(state.scopes() =~= outer.push(own));
    let keep = state.current_scope().entries.len();
    assert(keep == own.len());
    state.snapshot_for(node.id);
    let ghost snaps1 = snapshot_views(old(state).snapshots@).insert(node.id, own);
    if !st.display_none {
        let mut i: usize = 0;
        assert(node.children@.take(0) =~= Seq::<CounterNode>::empty());
        while i < node.children.len()
            invariant
                i <= node.children.len(),
                state.scopes() == outer.push(walk_children(node.children@.take(i as int), own, snaps1).1),
                snapshot_views(state.snapshots@) == walk_children(node.children@.take(i as int), own, snaps1).0,
            decreases node.children.len() - i,
        {
            walk_node(&node.children[i], state);
            assert(node.children@.take(i + 1).drop_last() =~= node.children@.take(i as int));
            i = i + 1;
        }
        assert(node.children@.take(node.children.len() as int) =~= node.children@);
    } else {
        assert(own.take(own.len() as int) =~= own);
    }
    state.pop_scope(keep);
    assert(state.scopes() =~= outer.drop_last().push(walk_spec(*node, parent, snapshot_views(old(state).snapshots@)).1));
}

/// `parts` written one after another with `sep` between neighbours.
pub open spec fn join_texts(parts: Seq<Seq<char>>, sep: Seq<char>) -> Seq<char>
    decreases parts.len(),
{
    if parts.len() == 0 {
        seq![]
    } else if parts.len() == 1 {
        parts[0]
    } else {
        join_texts(parts.drop_last(), sep) + sep + parts.last()
    }
}

/// What `counters(name, separator, style)` shows for the given counter
/// values: each value in the style, joined by the separator; the style's
/// text for 0 when there is no such counter.
pub open spec fn counters_text(values: Seq<i32>, sep: Seq<char>, style: CounterStyle) -> Seq<char> {
    if values.len() == 0 {
        counter_text(0, style)
    } else {
        join_texts(values.map_values(|v: i32| counter_text(v as int, style)), sep)
    }
}

/// The style can render every value of the list, and 0 where the list is empty.
pub open spec fn renders_all(values: Seq<i32>, style: CounterStyle) -> bool {
    &&& values.len() == 0 ==> counter_value_defined(0, style)
    &&& forall|i: int| 0 <= i < values.len() ==> counter_value_defined(#[trigger] values[i], style)
}

/// Generate a counter string representation from a value and style.
pub fn render_counter(value: i32, style: &CounterStyle) -> (s: String)
    requires
        counter_value_defined(value, *style),
    ensures
        s@ == counter_text(value as int, *style),
{
    generate_counter_value(value, style)
}

/// Generate a `counter(name)` value for a node.
pub fn resolve_counter(counter_state: &CounterState, node: usize, name: &String, style: &CounterStyle) -> (s: String)
    requires
        counter_value_defined(snapshot_value(counter_state.snapshot_map(), node, name@), *style),
    ensures
        s@ == counter_text(snapshot_value(counter_state.snapshot_map(), node, name@) as int, *style),
{
    let value = counter_state.counter_value(node, name);
    render_counter(value, style)
}

/// Generate a `counters(name, separator)` value for a node.
pub fn resolve_counters(
    counter_state: &CounterState,
    node: usize,
    name: &String,
    separator: &str,
    style: &CounterStyle,
) -> (s: String)
    requires
        renders_all(snapshot_values(counter_state.snapshot_map(), node, name@), *style),
    ensures
        s@ == counters_text(snapshot_values(counter_state.snapshot_map(), node, name@), separator@, *style),
{
    let values = counter_state.counter_all_values(node, name);
    if values.len() == 0 {
        return render_counter(0, style);
    }
    let ghost parts = values@.map_values(|v: i32| counter_text(v as int, *style));
    let mut s = String::new();
    let mut i: usize = 0;
    while i < values.len()
        invariant
            values.len() > 0,
            i <= values.len(),
            renders_all(values@, *style),
            parts == values@.map_values(|v: i32| counter_text(v as int, *style)),
            s@ == join_texts(parts.take(i as int), separator@),
        decreases values.len() - i,
    {
        assert(counter_value_defined(values@[i as int], *style));
        let text = render_counter(values[i], style);
        if i > 0 {
            s.append(separator);
        }
        s.append(text.as_str());
        assert(parts.take(i + 1).drop_last() =~= parts.take(i as int));
        if i == 0 {
            assert(parts.take(1) =~= seq![parts[0]]);
        }
        i = i + 1;
    }
    assert(parts.take(values.len() as int) =~= parts);
    s
}

/// The total length of `parts`.
pub open spec fn total_len(parts: Seq<Seq<char>>) -> int
    decreases parts.len(),
{
    if parts.len() == 0 {
        0
    } else {
        total_len(parts.drop_last()) + parts.last().len()
    }
}

/// Joined texts split at any separator: the parts up to `i`, joined, then
/// one separator, then the remaining parts, joined.
pub proof fn law_join_splits_at_every_separator(parts: Seq<Seq<char>>, sep: Seq<char>, i: int)
    requires
        0 <= i < parts.len() - 1,
    ensures
        join_texts(parts, sep) == join_texts(parts.take(i + 1), sep) + sep + join_texts(parts.skip(i + 1), sep),
    decreases parts.len(),
{
    if i == parts.len() - 2 {
        assert(parts.take(i + 1) =~= parts.drop_last());
        assert(parts.skip(i + 1) =~= seq![parts.last()]);
    } else {
        let init = parts.drop_last();
        law_join_splits_at_every_separator(init, sep, i);
        assert(init.take(i + 1) =~= parts.take(i + 1));
        let rest = parts.skip(i + 1);
        assert(rest.len() >= 2);
        assert(rest.drop_last() =~= init.skip(i + 1));
        assert(rest.last() == parts.last());
        assert(join_texts(rest, sep) == join_texts(rest.drop_last(), sep) + sep + rest.last());
        assert(join_texts(parts, sep) =~= join_texts(init.take(i + 1), sep) + sep + join_texts(init.skip(i + 1), sep)
            + sep + parts.last());
        assert(join_texts(parts, sep) =~= join_texts(parts.take(i + 1), sep) + sep + join_texts(rest, sep));
    }
}

/// `k >= 1` joined texts hold every part and exactly `k - 1` separators.
pub proof fn law_join_length(parts: Seq<Seq<char>>, sep: Seq<char>)
    requires
        parts.len() >= 1,
    ensures
        join_texts(parts, sep).len() == total_len(parts) + (parts.len() - 1) * sep.len(),
    decreases parts.len(),
{
    if parts.len() == 1 {
        assert(parts.drop_last() =~= Seq::<Seq<char>>::empty());
        assert(total_len(parts.drop_last()) == 0);
        assert(parts.last() == parts[0]);
    } else {
        law_join_length(parts.drop_last(), sep);
        let n = parts.len() as int;
        let l = sep.len() as int;
        assert((n - 1) * l == (n - 2) * l + l) by (nonlinear_arith);
    }
}

/// `counters()` of one value is that value's text; one more, inner, value
/// appends the separator and its text to the text of the others.
pub proof fn law_counters_appends_inner_value(values: Seq<i32>, v: i32, sep: Seq<char>, style: CounterStyle)
    ensures
        counters_text(seq![v], sep, style) == counter_text(v as int, style),
        values.len() >= 1 ==> counters_text(values.push(v), sep, style) == counters_text(values, sep, style) + sep
            + counter_text(v as int, style),
{
    let f = |x: i32| counter_text(x as int, style);
    assert(seq![v].map_values(f) =~= seq![counter_text(v as int, style)]);
    if values.len() >= 1 {
        let ps = values.push(v).map_values(f);
        assert(ps.drop_last() =~= values.map_values(f));
        assert(ps.len() >= 2);
    }
}

/// `counter(name)` shows the innermost of the values that `counters(name)`
/// lists, and 0 when it lists none.
pub proof fn law_get_is_innermost_of_get_all(entries: Seq<CounterEntry>, name: Seq<char>)
    ensures
        counter_get(entries, name) == if counter_get_all(entries, name).len() > 0 {
            counter_get_all(entries, name).last()
        } else {
            0
        },
    decreases entries.len(),
{
    if entries.len() > 0 && entries.last().name@ != name {
        law_get_is_innermost_of_get_all(entries.drop_last(), name);
        lemma_innermost_index_bound(entries.drop_last(), name);
    }
}

/// A `counter-reset` item creates a new innermost instance: `counter(name)`
/// then shows the reset value, and `counters(name)` lists one more value.
pub proof fn law_reset_nests_new_instance(entries: Seq<CounterEntry>, p: CounterPair)
    ensures
        counter_get(apply_resets(entries, seq![p]), p.name@) == p.value,
        counter_get_all(apply_resets(entries, seq![p]), p.name@) == counter_get_all(entries, p.name@).push(p.value),
{
    let after = apply_resets(entries, seq![p]);
    assert(after =~= entries.push(reset_entry(p)));
    assert(after.drop_last() =~= entries);
}

/// A `counter-increment` item adds its value to what `counter(name)` showed
/// (saturating at the `i32` bounds, a missing counter counting as 0), and
/// leaves every other counter's value alone.
pub proof fn law_increment_adds(entries: Seq<CounterEntry>, p: CounterPair, other: Seq<char>)
    requires
        other != p.name@,
    ensures
        counter_get(increment_one(entries, p), p.name@) == clamp_i32(counter_get(entries, p.name@) + p.value),
        counter_get(increment_one(entries, p), other) == counter_get(entries, other),
{
    lemma_innermost_index_bound(entries, p.name@);
    lemma_innermost_index_bound(entries, other);
    let i = innermost_index(entries, p.name@);
    let after = increment_one(entries, p);
    if i >= 0 {
        lemma_innermost_unchanged_by_value(entries, i, clamp_i32(entries[i].value + p.value) as i32, p.name@);
        lemma_innermost_unchanged_by_value(entries, i, clamp_i32(entries[i].value + p.value) as i32, other);
    } else {
        assert(after.drop_last() =~= entries);
    }
}

/// Changing an entry's value moves no innermost index.
proof fn lemma_innermost_unchanged_by_value(entries: Seq<CounterEntry>, i: int, value: i32, name: Seq<char>)
    requires
        0 <= i < entries.len(),
    ensures
        innermost_index(with_value(entries, i, value), name) == innermost_index(entries, name),
    decreases entries.len(),
{
    let after = with_value(entries, i, value);
    if i < entries.len() - 1 {
        assert(after.drop_last() =~= with_value(entries.drop_last(), i, value));
        lemma_innermost_unchanged_by_value(entries.drop_last(), i, value, name);
    } else {
        assert(after.drop_last() =~= entries.drop_last());
    }
}

/// The ids of every node of `node`'s subtree.
pub open spec fn tree_ids(node: CounterNode) -> Set<usize>
    decreases node,
{
    set![node.id].union(forest_ids(node.children@))
}

/// The ids of every node of the subtrees in `nodes`.
pub open spec fn forest_ids(nodes: Seq<CounterNode>) -> Set<usize>
    decreases nodes,
{
    if nodes.len() == 0 {
        Set::empty()
    } else {
        forest_ids(nodes.drop_last()).union(tree_ids(nodes.last()))
    }
}

/// The counters after an element's resets and increments, before the
/// automatic `list-item` step.
pub open spec fn after_resets_and_increments(entries: Seq<CounterEntry>, st: ElementCounters) -> Seq<CounterEntry> {
    apply_increments(apply_resets(entries, st.counter_reset@), st.counter_increment@)
}

/// The innermost counter named `name` counts down.
pub open spec fn innermost_reversed(entries: Seq<CounterEntry>, name: Seq<char>) -> bool {
    entries[innermost_index(entries, name)].is_reversed
}

proof fn lemma_innermost_append(a: Seq<CounterEntry>, b: Seq<CounterEntry>, name: Seq<char>)
    requires
        innermost_index(a, name) >= 0,
    ensures
        innermost_index(a + b, name) >= 0,
    decreases b.len(),
{
    if b.len() == 0 {
        assert(a + b =~= a);
    } else {
        assert((a + b).drop_last() =~= a + b.drop_last());
        lemma_innermost_append(a, b.drop_last(), name);
    }
}

proof fn lemma_increments_keep_counter(entries: Seq<CounterEntry>, increment: Seq<CounterPair>, name: Seq<char>)
    requires
        innermost_index(entries, name) >= 0,
    ensures
        innermost_index(apply_increments(entries, increment), name) >= 0,
    decreases increment.len(),
{
    if increment.len() > 0 {
        lemma_increments_keep_counter(entries, increment.drop_last(), name);
        let e = apply_increments(entries, increment.drop_last());
        let p = increment.last();
        let i = innermost_index(e, p.name@);
        lemma_innermost_index_bound(e, p.name@);
        if i >= 0 {
            lemma_innermost_unchanged_by_value(e, i, clamp_i32(e[i].value + p.value) as i32, name);
        } else {
            lemma_innermost_append(e, seq![CounterEntry { name: p.name, value: p.value, is_reversed: false }], name);
            assert(e.push(CounterEntry { name: p.name, value: p.value, is_reversed: false }) =~= e + seq![
                CounterEntry { name: p.name, value: p.value, is_reversed: false },
            ]);
        }
    }
}

/// The automatic `list-item` step of a list item (not `display: none`):
/// when its `counter-increment` names no counter called `list-item`, the
/// innermost `list-item` counter ends one more than its resets and
/// increments left it (one less if reversed, saturating), and every other
/// counter is as they left it; when an increment names `list-item`, that
/// increment replaces the step and nothing more changes.
pub proof fn law_list_item_auto_step(entries: Seq<CounterEntry>, st: ElementCounters, name: Seq<char>)
    requires
        !st.display_none,
        st.is_list_item,
        innermost_index(entries, "list-item"@) >= 0,
    ensures
        innermost_index(after_resets_and_increments(entries, st), "list-item"@) >= 0,
        (forall|k: int| 0 <= k < st.counter_increment@.len() ==> (#[trigger] st.counter_increment@[k]).name@ != "list-item"@)
            ==> counter_get(element_scope(entries, st), "list-item"@) == (if innermost_reversed(
            after_resets_and_increments(entries, st),
            "list-item"@,
        ) {
            clamp_i32(counter_get(after_resets_and_increments(entries, st), "list-item"@) - 1)
        } else {
            clamp_i32(counter_get(after_resets_and_increments(entries, st), "list-item"@) + 1)
        }),
        name != "list-item"@ ==> counter_get(element_scope(entries, st), name) == counter_get(
            after_resets_and_increments(entries, st),
            name,
        ),
        (exists|k: int| 0 <= k < st.counter_increment@.len() && (#[trigger] st.counter_increment@[k]).name@ == "list-item"@)
            ==> element_scope(entries, st) == after_resets_and_increments(entries, st),
{
    let before = after_resets_and_increments(entries, st);
    let li = list_item_name();
    lemma_innermost_append(entries, st.counter_reset@.map_values(|p: CounterPair| reset_entry(p)), li);
    lemma_increments_keep_counter(apply_resets(entries, st.counter_reset@), st.counter_increment@, li);
    let i = innermost_index(before, li);
    lemma_innermost_index_bound(before, li);
    if !mentions_list_item(st.counter_increment@) {
        let v = if before[i].is_reversed { clamp_i32(before[i].value - 1) as i32 } else { clamp_i32(before[i].value + 1) as i32 };
        lemma_innermost_unchanged_by_value(before, i, v, li);
        lemma_innermost_unchanged_by_value(before, i, v, name);
        assert(element_scope(entries, st) == with_value(before, i, v));
        if name != li {
            lemma_innermost_index_bound(before, name);
            let j = innermost_index(before, name);
            if j >= 0 {
                assert(j != i);
            }
        }
    }
}

/// A list item's snapshot after the walk holds its automatic `list-item`
/// step: with no increment naming `list-item`, its innermost `list-item`
/// counter is one more (one less if reversed, saturating) than its resets
/// and increments left it, given that no node below it shares its id.
pub proof fn law_list_item_snapshot(node: CounterNode, scope: Seq<CounterEntry>, snaps: Map<usize, Seq<CounterEntry>>)
    requires
        node.counters is Element,
        !node.counters->Element_0.display_none,
        node.counters->Element_0.is_list_item,
        forall|k: int|
            0 <= k < node.counters->Element_0.counter_increment@.len()
                ==> (#[trigger] node.counters->Element_0.counter_increment@[k]).name@ != "list-item"@,
        innermost_index(scope, "list-item"@) >= 0,
        !forest_ids(node.children@).contains(node.id),
    ensures
        walk_spec(node, scope, snaps).0.contains_key(node.id),
        counter_get(walk_spec(node, scope, snaps).0[node.id], "list-item"@) == (if innermost_reversed(
            after_resets_and_increments(scope, node.counters->Element_0),
            "list-item"@,
        ) {
            clamp_i32(counter_get(after_resets_and_increments(scope, node.counters->Element_0), "list-item"@) - 1)
        } else {
            clamp_i32(counter_get(after_resets_and_increments(scope, node.counters->Element_0), "list-item"@) + 1)
        }),
{
    let st = node.counters->Element_0;
    law_list_item_auto_step(scope, st, "list-item"@);
    let own = element_scope(scope, st);
    lemma_walk_children_touches_only_forest(node.children@, own, snaps.insert(node.id, own), node.id);
}

proof fn lemma_innermost_append_others(a: Seq<CounterEntry>, t: Seq<CounterEntry>, name: Seq<char>)
    requires
        forall|k: int| 0 <= k < t.len() ==> (#[trigger] t[k]).name@ != name,
    ensures
        innermost_index(a + t, name) == innermost_index(a, name),
    decreases t.len(),
{
    if t.len() == 0 {
        assert(a + t =~= a);
    } else {
        assert((a + t).drop_last() =~= a + t.drop_last());
        assert((a + t).last() == t[t.len() - 1]);
        lemma_innermost_append_others(a, t.drop_last(), name);
    }
}

proof fn lemma_resets_keep_other(entries: Seq<CounterEntry>, reset: Seq<CounterPair>, name: Seq<char>)
    requires
        forall|k: int| 0 <= k < reset.len() ==> (#[trigger] reset[k]).name@ != name,
    ensures
        counter_get(apply_resets(entries, reset), name) == counter_get(entries, name),
{
    let t = reset.map_values(|p: CounterPair| reset_entry(p));
    assert forall|k: int| 0 <= k < t.len() implies (#[trigger] t[k]).name@ != name by {
        assert(t[k] == reset_entry(reset[k]));
    }
    lemma_innermost_append_others(entries, t, name);
    lemma_innermost_index_bound(entries, name);
    let i = innermost_index(entries, name);
    if i >= 0 {
        assert((entries + t)[i] == entries[i]);
    }
}

proof fn lemma_increments_keep_other(entries: Seq<CounterEntry>, increment: Seq<CounterPair>, name: Seq<char>)
    requires
        forall|k: int| 0 <= k < increment.len() ==> (#[trigger] increment[k]).name@ != name,
    ensures
        counter_get(apply_increments(entries, increment), name) == counter_get(entries, name),
    decreases increment.len(),
{
    if increment.len() > 0 {
        let init = increment.drop_last();
        assert forall|k: int| 0 <= k < init.len() implies (#[trigger] init[k]).name@ != name by {
            assert(init[k] == increment[k]);
        }
        lemma_increments_keep_other(entries, init, name);
        assert(increment.last() == increment[increment.len() - 1]);
        law_increment_adds(apply_increments(entries, init), increment.last(), name);
    }
}

proof fn lemma_scope_keeps_other(entries: Seq<CounterEntry>, st: ElementCounters, name: Seq<char>)
    requires
        name != list_item_name(),
        forall|k: int| 0 <= k < st.counter_reset@.len() ==> (#[trigger] st.counter_reset@[k]).name@ != name,
        forall|k: int| 0 <= k < st.counter_increment@.len() ==> (#[trigger] st.counter_increment@[k]).name@ != name,
    ensures
        counter_get(element_scope(entries, st), name) == counter_get(entries, name),
{
    lemma_resets_keep_other(entries, st.counter_reset@, name);
    if !st.display_none {
        let r = apply_resets(entries, st.counter_reset@);
        lemma_increments_keep_other(r, st.counter_increment@, name);
        let before = apply_increments(r, st.counter_increment@);
        let i = innermost_index(before, list_item_name());
        lemma_innermost_index_bound(before, list_item_name());
        lemma_innermost_index_bound(before, name);
        if st.is_list_item && !mentions_list_item(st.counter_increment@) && i >= 0 {
            let v = if before[i].is_reversed { clamp_i32(before[i].value - 1) as i32 } else { clamp_i32(before[i].value + 1) as i32 };
            lemma_innermost_unchanged_by_value(before, i, v, name);
        }
    }
}

/// A counter that an element (without children) resets reaches its next
/// sibling: the sibling, resetting and incrementing other counters only,
/// shows the reset value in its snapshot, as css-lists-3 scopes a counter
/// to the element that creates it and its following siblings.
pub proof fn law_reset_reaches_next_sibling(
    scope: Seq<CounterEntry>,
    a: CounterNode,
    b: CounterNode,
    snaps: Map<usize, Seq<CounterEntry>>,
    p: CounterPair,
)
    requires
        a.counters is Element,
        b.counters is Element,
        a.children@.len() == 0,
        a.counters->Element_0.counter_reset@ == seq![p],
        forall|k: int|
            0 <= k < a.counters->Element_0.counter_increment@.len() ==> (
            #[trigger] a.counters->Element_0.counter_increment@[k]).name@ != p.name@,
        forall|k: int|
            0 <= k < b.counters->Element_0.counter_reset@.len() ==> (
            #[trigger] b.counters->Element_0.counter_reset@[k]).name@ != p.name@,
        forall|k: int|
            0 <= k < b.counters->Element_0.counter_increment@.len() ==> (
            #[trigger] b.counters->Element_0.counter_increment@[k]).name@ != p.name@,
        p.name@ != "list-item"@,
        !forest_ids(b.children@).contains(b.id),
    ensures
        walk_children(seq![a, b], scope, snaps).0.contains_key(b.id),
        counter_get(walk_children(seq![a, b], scope, snaps).0[b.id], p.name@) == p.value,
{
    let sa = a.counters->Element_0;
    let sb = b.counters->Element_0;
    let x = p.name@;
    // After `a`: its own scope, with the new instance of `x`.
    let reset_a = apply_resets(scope, seq![p]);
    law_reset_nests_new_instance(scope, p);
    let own_a = element_scope(scope, sa);
    if sa.display_none {
        assert(own_a == reset_a);
    } else {
        lemma_increments_keep_other(reset_a, sa.counter_increment@, x);
        let before = apply_increments(reset_a, sa.counter_increment@);
        let i = innermost_index(before, list_item_name());
        lemma_innermost_index_bound(before, list_item_name());
        lemma_innermost_index_bound(before, x);
        if sa.is_list_item && !mentions_list_item(sa.counter_increment@) && i >= 0 {
            let v = if before[i].is_reversed { clamp_i32(before[i].value - 1) as i32 } else { clamp_i32(before[i].value + 1) as i32 };
            lemma_innermost_unchanged_by_value(before, i, v, x);
        }
    }
    assert(counter_get(own_a, x) == p.value);
    let ra = walk_spec(a, scope, snaps);
    if !sa.display_none {
        assert(walk_children(a.children@, own_a, snaps.insert(a.id, own_a)) == (snaps.insert(a.id, own_a), own_a));
        assert(truncated(own_a, own_a.len() as int) =~= own_a);
    }
    assert(ra.1 == own_a);
    assert(seq![a, b].drop_last() =~= seq![a]);
    assert(seq![a].drop_last() =~= Seq::<CounterNode>::empty());
    assert(seq![a].last() == a);
    assert(walk_children(Seq::<CounterNode>::empty(), scope, snaps) == (snaps, scope));
    assert(walk_children(seq![a], scope, snaps) == ra);
    assert(seq![a, b].last() == b);
    assert(walk_children(seq![a, b], scope, snaps) == walk_spec(b, own_a, ra.0));
    // `b` keeps `x` as `a` left it, and its snapshot survives its subtree.
    lemma_scope_keeps_other(own_a, sb, x);
    let own_b = element_scope(own_a, sb);
    if !sb.display_none {
        lemma_walk_children_touches_only_forest(b.children@, own_b, ra.0.insert(b.id, own_b), b.id);
    }
}

/// Walking a subtree records or replaces snapshots only under the ids of
/// its own nodes: every other key keeps its snapshot, or its absence.
pub proof fn law_walk_touches_only_its_subtree(
    node: CounterNode,
    scope: Seq<CounterEntry>,
    snaps: Map<usize, Seq<CounterEntry>>,
    k: usize,
)
    requires
        !tree_ids(node).contains(k),
    ensures
        walk_spec(node, scope, snaps).0.contains_key(k) == snaps.contains_key(k),
        snaps.contains_key(k) ==> walk_spec(node, scope, snaps).0[k] == snaps[k],
    decreases node,
{
    match node.counters {
        NodeCounters::Element(st) => {
            let own = element_scope(scope, st);
            if !st.display_none {
                lemma_walk_children_touches_only_forest(node.children@, own, snaps.insert(node.id, own), k);
            }
        },
        _ => {},
    }
}

proof fn lemma_walk_children_touches_only_forest(
    nodes: Seq<CounterNode>,
    scope: Seq<CounterEntry>,
    snaps: Map<usize, Seq<CounterEntry>>,
    k: usize,
)
    requires
        !forest_ids(nodes).contains(k),
    ensures
        walk_children(nodes, scope, snaps).0.contains_key(k) == snaps.contains_key(k),
        snaps.contains_key(k) ==> walk_children(nodes, scope, snaps).0[k] == snaps[k],
    decreases nodes,
{
    if nodes.len() > 0 {
        lemma_walk_children_touches_only_forest(nodes.drop_last(), scope, snaps, k);
        let r = walk_children(nodes.drop_last(), scope, snaps);
        law_walk_touches_only_its_subtree(nodes.last(), r.1, r.0, k);
    }
}

} // verus!
