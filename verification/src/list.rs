use vstd::prelude::*;
use crate::config::{TickType, UBaseType, PORT_MAX_DELAY};

verus! {

/// Which kernel list an item belongs to.
#[derive(Clone, Copy, PartialEq, Eq, Structural, Debug)]
pub enum ListId {
    /// The ready list of the given priority.
    Ready(usize),
    /// One of the two delay lists (0 or 1).
    Delay(usize),
    /// The list of suspended tasks.
    Suspended,
    /// The wait list of an inter-task communication object.
    Event,
}

/// A list entry: a sort value, the task that owns it and the list holding it.
#[derive(Clone, Copy, PartialEq, Eq, Structural, Debug)]
pub struct ListItem {
    pub value: TickType,
    pub owner: Option<usize>,
    pub ctner: Option<ListId>,
}

impl ListItem {
    /// The value of a fresh item.
    pub open spec fn new_spec() -> ListItem {
        ListItem { value: PORT_MAX_DELAY, owner: None, ctner: None }
    }

    /// A detached item that sorts last and has no owner.
    pub fn new() -> (r: Self)
        ensures
            r == ListItem::new_spec(),
    {
        ListItem { value: PORT_MAX_DELAY, owner: None, ctner: None }
    }

    pub fn set_owner(&mut self, owner: usize)
        ensures
            *final(self) == (ListItem { owner: Some(owner), ..*old(self) }),
    {
        self.owner = Some(owner);
    }

    pub fn get_owner(&self) -> (r: Option<usize>)
        ensures
            r == self.owner,
    {
        self.owner
    }

    pub fn set_value(&mut self, val: TickType)
        ensures
            *final(self) == (ListItem { value: val, ..*old(self) }),
    {
        self.value = val;
    }

    pub fn get_value(&self) -> (r: TickType)
        ensures
            r == self.value,
    {
        self.value
    }
}

/// Items in ascending order of value: what ordered insertion keeps.
pub open spec fn sorted(s: Seq<ListItem>) -> bool {
    forall|i: int, j: int| 0 <= i <= j < s.len() ==> s[i].value <= s[j].value
}

/// `p` is where an item of value `v` goes: after every item of value at most `v`
/// that precedes the first item of a greater value.
pub open spec fn is_insert_pos(s: Seq<ListItem>, v: TickType, p: int) -> bool {
    &&& 0 <= p <= s.len()
    &&& forall|i: int| 0 <= i < p ==> s[i].value <= v
    &&& p < s.len() ==> s[p].value > v
}

/// The position of the first item whose value exceeds `v` (the length if none does).
pub open spec fn insert_position(s: Seq<ListItem>, v: TickType) -> int
    decreases s.len(),
{
    if s.len() == 0 {
        0
    } else if s[0].value > v {
        0
    } else {
        1 + insert_position(s.drop_first(), v)
    }
}

/// The cursor position that follows `index` in a circular list of `len` items
/// whose end marker stands at position `len` and is skipped.
pub open spec fn next_cursor(index: int, len: int) -> int {
    if index + 1 >= len {
        0
    } else {
        index + 1
    }
}

/// Where the cursor ends up after the item at `pos` is taken out.
pub open spec fn cursor_after_remove(index: int, pos: int, new_len: int) -> int {
    if index == pos {
        if pos == 0 {
            new_len
        } else {
            pos - 1
        }
    } else if index > pos {
        index - 1
    } else {
        index
    }
}

/// A circular doubly linked list with an end marker, kept as the sequence of
/// its items from head to tail and a cursor (`index`) that points at one of
/// them, or at the end marker when it equals the number of items.
pub struct List {
    pub items: Vec<ListItem>,
    pub index: usize,
}

impl List {
    pub open spec fn wf(&self) -> bool {
        self.index <= self.items@.len()
    }

    pub open spec fn len_spec(&self) -> nat {
        self.items@.len()
    }

    /// An empty list whose cursor points at the end marker.
    pub fn new() -> (r: Self)
        ensures
            r.wf(),
            r.items@ == Seq::<ListItem>::empty(),
            r.index == 0,
    {
        List { items: Vec::new(), index: 0 }
    }

    /// Empties the list and points the cursor at the end marker.
    pub fn init(&mut self)
        ensures
            final(self).wf(),
            final(self).items@ == Seq::<ListItem>::empty(),
            final(self).index == 0,
    {
        self.items = Vec::new();
        self.index = 0;
    }

    /// The number of items in the list.
    pub fn items_num(&self) -> (r: UBaseType)
        requires
            self.items@.len() <= u32::MAX,
        ensures
            r == self.items@.len(),
    {
        self.items.len() as UBaseType
    }

    /// Appends an item at the tail, just before the end marker.
    pub fn insert_end(&mut self, item: ListItem)
        requires
            old(self).wf(),
        ensures
            final(self).wf(),
            final(self).items@ == old(self).items@.push(item),
            final(self).index == (if old(self).index == old(self).items@.len() {
                old(self).index + 1
            } else {
                old(self).index as int
            }),
            old(self).index < old(self).items@.len() ==> final(self).items@[final(self).index as int]
                == old(self).items@[old(self).index as int],
            old(self).index == old(self).items@.len() ==> final(self).index == final(self).items@.len(),
    {
        let at_end = self.index == self.items.len();
        self.items.push(item);
        let _n = self.items.len();
        if at_end {
            self.index = self.index + 1;
        }
    }

    /// Inserts an item just before the one the cursor points at.
    pub fn insert_before_index(&mut self, item: ListItem)
        requires
            old(self).wf(),
        ensures
            final(self).wf(),
            final(self).items@ == old(self).items@.insert(old(self).index as int, item),
            final(self).index == old(self).index + 1,
            old(self).index < old(self).items@.len() ==> final(self).items@[final(self).index as int]
                == old(self).items@[old(self).index as int],
            old(self).index == old(self).items@.len() ==> final(self).index == final(self).items@.len(),
    {
        self.items.insert(self.index, item);
        let _n = self.items.len();
        self.index = self.index + 1;
    }

    /// Inserts an item in value order: before the first item of a greater value.
    pub fn insert(&mut self, item: ListItem)
        requires
            old(self).wf(),
        ensures
            final(self).wf(),
            final(self).items@ == old(self).items@.insert(
                insert_position(old(self).items@, item.value),
                item,
            ),
            final(self).index == (if old(self).index >= insert_position(
                old(self).items@,
                item.value,
            ) {
                old(self).index + 1
            } else {
                old(self).index as int
            }),
            old(self).index < old(self).items@.len() ==> final(self).items@[final(self).index as int]
                == old(self).items@[old(self).index as int],
            old(self).index == old(self).items@.len() ==> final(self).index == final(self).items@.len(),
    {
        let value = item.value;
        let mut i: usize = 0;
        if value == PORT_MAX_DELAY {
            i = self.items.len();
        } else {
            while i < self.items.len() && self.items[i].value <= value
                invariant
                    self.wf(),
                    i <= self.items@.len(),
                    forall|j: int| 0 <= j < i ==> self.items@[j].value <= value,
                decreases self.items@.len() - i,
            {
                i = i + 1;
            }
        }
        proof {
            lemma_insert_position_unique(self.items@, value, i as int);
        }
        self.items.insert(i, item);
        let _n = self.items.len();
        if self.index >= i {
            self.index = self.index + 1;
        }
    }

    /// Takes out the item at `pos` and returns it; the cursor follows the
    /// item it pointed at, or moves back when that item is the one removed.
    pub fn remove_at(&mut self, pos: usize) -> (r: ListItem)
        requires
            old(self).wf(),
            pos < old(self).items@.len(),
        ensures
            final(self).wf(),
            r == old(self).items@[pos as int],
            final(self).items@ == old(self).items@.remove(pos as int),
            final(self).index == cursor_after_remove(
                old(self).index as int,
                pos as int,
                final(self).items@.len() as int,
            ),
            old(self).index != pos && old(self).index < old(self).items@.len() ==> final(self).items@[final(self).index as int]
                == old(self).items@[old(self).index as int],
            old(self).index == old(self).items@.len() ==> final(self).index == final(self).items@.len(),
    {
        let r = self.items.remove(pos);
        if self.index == pos {
            if pos == 0 {
                self.index = self.items.len();
            } else {
                self.index = pos - 1;
            }
        } else if self.index > pos {
            self.index = self.index - 1;
        }
        r
    }

    /// The position of the first item owned by `owner`, if any.
    pub fn find_owner(&self, owner: usize) -> (r: Option<usize>)
        ensures
            match r {
                Some(p) => p < self.items@.len() && self.items@[p as int].owner == Some(owner)
                    && forall|j: int| 0 <= j < p ==> self.items@[j].owner != Some(owner),
                None => forall|j: int|
                    0 <= j < self.items@.len() ==> self.items@[j].owner != Some(owner),
            },
    {
        let mut i: usize = 0;
        while i < self.items.len()
            invariant
                i <= self.items@.len(),
                forall|j: int| 0 <= j < i ==> self.items@[j].owner != Some(owner),
            decreases self.items@.len() - i,
        {
            if self.items[i].owner == Some(owner) {
                return Some(i);
            }
            i = i + 1;
        }
        None
    }

    /// Advances the cursor to the next item, skipping the end marker, and
    /// returns the owner of the item it now points at (none for an empty list).
    pub fn get_next_entry(&mut self) -> (r: Option<usize>)
        requires
            old(self).wf(),
        ensures
            next_entry_step(*old(self), *final(self), r),
    {
        if self.items.len() == 0 {
            return None;
        }
        if self.index >= self.items.len() - 1 {
            self.index = 0;
        } else {
            self.index = self.index + 1;
        }
        self.items[self.index].owner
    }
}

/// The characterisation of `insert_position`: it is the one position that
/// `is_insert_pos` admits.
pub proof fn lemma_insert_position_unique(s: Seq<ListItem>, v: TickType, p: int)
    requires
        0 <= p <= s.len(),
        forall|i: int| 0 <= i < p ==> s[i].value <= v,
        p < s.len() ==> s[p].value > v,
    ensures
        insert_position(s, v) == p,
        is_insert_pos(s, v, p),
    decreases s.len(),
{
    if s.len() > 0 {
        if p == 0 {
        } else {
            assert(s[0].value <= v);
            let t = s.drop_first();
            assert forall|i: int| 0 <= i < p - 1 implies t[i].value <= v by {
                assert(t[i] == s[i + 1]);
            }
            lemma_insert_position_unique(t, v, p - 1);
        }
    }
}

/// `insert_position` always names a position that `is_insert_pos` admits.
pub proof fn lemma_insert_position(s: Seq<ListItem>, v: TickType)
    ensures
        is_insert_pos(s, v, insert_position(s, v)),
    decreases s.len(),
{
    if s.len() > 0 && s[0].value <= v {
        let t = s.drop_first();
        lemma_insert_position(t, v);
        let q = insert_position(t, v);
        assert forall|i: int| 0 <= i < q + 1 implies s[i].value <= v by {
            if i > 0 {
                assert(s[i] == t[i - 1]);
            }
        }
        if q + 1 < s.len() {
            assert(s[q + 1] == t[q]);
        }
    }
}

/// Ordered insertion keeps a sorted list sorted.
pub proof fn lemma_insert_keeps_sorted(s: Seq<ListItem>, item: ListItem)
    requires
        sorted(s),
    ensures
        sorted(s.insert(insert_position(s, item.value), item)),
{
    lemma_insert_position(s, item.value);
    let p = insert_position(s, item.value);
    let t = s.insert(p, item);
    s.insert_ensures(p, item);
    assert forall|i: int, j: int| 0 <= i <= j < t.len() implies t[i].value <= t[j].value by {
        if i < p {
            if j < p {
            } else if j == p {
            } else {
                assert(t[j] == s[j - 1]);
            }
        } else if i == p {
            if j > p {
                assert(t[j] == s[j - 1]);
                assert(s[p].value > item.value);
            }
        } else {
            assert(t[i] == s[i - 1]);
            assert(t[j] == s[j - 1]);
        }
    }
}

/// Taking an item out keeps a sorted list sorted.
pub proof fn lemma_remove_keeps_sorted(s: Seq<ListItem>, pos: int)
    requires
        sorted(s),
        0 <= pos < s.len(),
    ensures
        sorted(s.remove(pos)),
{
    s.remove_ensures(pos);
    let t = s.remove(pos);
    assert forall|i: int, j: int| 0 <= i <= j < t.len() implies t[i].value <= t[j].value by {
        let oi = if i < pos { i } else { i + 1 };
        let oj = if j < pos { j } else { j + 1 };
        assert(t[i] == s[oi]);
        assert(t[j] == s[oj]);
    }
}


/// Some item of `s` is owned by task `t`.
pub open spec fn has_owner(s: Seq<ListItem>, t: usize) -> bool {
    exists|i: int| 0 <= i < s.len() && #[trigger] s[i].owner == Some(t)
}

/// No task owns two items of `s`.
pub open spec fn owners_unique(s: Seq<ListItem>) -> bool {
    forall|i: int, j: int|
        0 <= i < s.len() && 0 <= j < s.len() && i != j && s[i].owner.is_some() ==> s[i].owner
            != s[j].owner
}

/// The position of the item of `s` owned by task `t`.
pub open spec fn owner_pos(s: Seq<ListItem>, t: usize) -> int {
    choose|i: int| 0 <= i < s.len() && #[trigger] s[i].owner == Some(t)
}

/// In a list where owners are unique, the item owned by `t` sits at `owner_pos`.
pub proof fn lemma_owner_pos(s: Seq<ListItem>, t: usize, p: int)
    requires
        owners_unique(s),
        0 <= p < s.len(),
        s[p].owner == Some(t),
    ensures
        owner_pos(s, t) == p,
        has_owner(s, t),
{
    assert(has_owner(s, t));
    let q = owner_pos(s, t);
    assert(0 <= q < s.len() && s[q].owner == Some(t));
}

/// Taking out one item keeps every other owner in the list and keeps owners unique.
pub proof fn lemma_remove_owners(s: Seq<ListItem>, pos: int)
    requires
        0 <= pos < s.len(),
    ensures
        forall|u: usize| has_owner(s, u) && s[pos].owner != Some(u) ==> has_owner(s.remove(pos), u),
        forall|u: usize| has_owner(s.remove(pos), u) ==> has_owner(s, u),
        owners_unique(s) ==> owners_unique(s.remove(pos)),
        owners_unique(s) && s[pos].owner.is_some() ==> !has_owner(
            s.remove(pos),
            s[pos].owner.unwrap(),
        ),
        forall|k: int|
            0 <= k < s.remove(pos).len() ==> #[trigger] s.remove(pos)[k] == (if k < pos {
                s[k]
            } else {
                s[k + 1]
            }),
{
    let r = s.remove(pos);
    s.remove_ensures(pos);
    assert forall|u: usize| has_owner(s, u) && s[pos].owner != Some(u) implies has_owner(r, u) by {
        let i = choose|i: int| 0 <= i < s.len() && #[trigger] s[i].owner == Some(u);
        if i < pos {
            assert(r[i] == s[i]);
        } else {
            assert(r[i - 1] == s[i]);
        }
    }
    assert forall|u: usize| has_owner(r, u) implies has_owner(s, u) by {
        let i = choose|i: int| 0 <= i < r.len() && #[trigger] r[i].owner == Some(u);
        if i < pos {
            assert(r[i] == s[i]);
        } else {
            assert(r[i] == s[i + 1]);
        }
    }
    if owners_unique(s) {
        assert forall|i: int, j: int|
            0 <= i < r.len() && 0 <= j < r.len() && i != j && r[i].owner.is_some() implies r[i].owner
            != r[j].owner by {
            let oi = if i < pos { i } else { i + 1 };
            let oj = if j < pos { j } else { j + 1 };
            assert(r[i] == s[oi]);
            assert(r[j] == s[oj]);
        }
        if s[pos].owner.is_some() {
            if has_owner(r, s[pos].owner.unwrap()) {
                let i = choose|i: int| 0 <= i < r.len() && #[trigger] r[i].owner == s[pos].owner;
                let oi = if i < pos { i } else { i + 1 };
                assert(r[i] == s[oi]);
            }
        }
    }
}

/// Putting in one item keeps every owner in the list, adds the new item's
/// owner, and keeps owners unique when that owner was absent.
pub proof fn lemma_insert_owners(s: Seq<ListItem>, p: int, item: ListItem)
    requires
        0 <= p <= s.len(),
    ensures
        forall|u: usize| has_owner(s, u) ==> has_owner(s.insert(p, item), u),
        forall|u: usize|
            has_owner(s.insert(p, item), u) ==> has_owner(s, u) || item.owner == Some(u),
        item.owner.is_some() ==> has_owner(s.insert(p, item), item.owner.unwrap()),
        owners_unique(s) && (item.owner.is_none() || !has_owner(s, item.owner.unwrap()))
            ==> owners_unique(s.insert(p, item)),
        forall|k: int|
            0 <= k < s.insert(p, item).len() ==> #[trigger] s.insert(p, item)[k] == (if k < p {
                s[k]
            } else if k == p {
                item
            } else {
                s[k - 1]
            }),
{
    let r = s.insert(p, item);
    s.insert_ensures(p, item);
    assert forall|k: int| 0 <= k < r.len() implies #[trigger] r[k] == (if k < p {
        s[k]
    } else if k == p {
        item
    } else {
        s[k - 1]
    }) by {
        if k > p {
            assert(r[(k - 1) + 1] == s[k - 1]);
        }
    }
    assert forall|u: usize| has_owner(s, u) implies has_owner(r, u) by {
        let i = choose|i: int| 0 <= i < s.len() && #[trigger] s[i].owner == Some(u);
        if i < p {
            assert(r[i] == s[i]);
        } else {
            assert(r[i + 1] == s[i]);
        }
    }
    assert forall|u: usize| has_owner(r, u) implies has_owner(s, u) || item.owner == Some(u) by {
        let i = choose|i: int| 0 <= i < r.len() && #[trigger] r[i].owner == Some(u);
        if i < p {
            assert(r[i] == s[i]);
        } else if i > p {
            assert(r[i] == s[i - 1]);
        }
    }
    if item.owner.is_some() {
        assert(r[p] == item);
    }
    if owners_unique(s) && (item.owner.is_none() || !has_owner(s, item.owner.unwrap())) {
        assert forall|i: int, j: int|
            0 <= i < r.len() && 0 <= j < r.len() && i != j && r[i].owner.is_some() implies r[i].owner
            != r[j].owner by {
            if i != p && j != p {
                let oi = if i < p { i } else { i - 1 };
                let oj = if j < p { j } else { j - 1 };
                assert(r[i] == s[oi]);
                assert(r[j] == s[oj]);
            } else if i == p {
                let oj = if j < p { j } else { j - 1 };
                assert(r[j] == s[oj]);
                assert(s[oj].owner == item.owner ==> has_owner(s, item.owner.unwrap()));
            } else {
                let oi = if i < p { i } else { i - 1 };
                assert(r[i] == s[oi]);
                assert(s[oi].owner == item.owner ==> has_owner(s, item.owner.unwrap()));
            }
        }
    }
}

/// The cursor after `k` successive calls of `get_next_entry` on a list of
/// `len` items whose cursor starts at `index`.
pub open spec fn cursor_after_calls(index: int, len: int, k: nat) -> int
    decreases k,
{
    if k == 0 {
        index
    } else {
        next_cursor(cursor_after_calls(index, len, (k - 1) as nat), len)
    }
}

/// Round robin: from a cursor on an item, `k` successive calls of
/// `get_next_entry` on a list of `len` items land on item `(index + k) % len`,
/// so `len` calls visit every item once and come back to the start.
pub proof fn lemma_round_robin(index: int, len: int, k: nat)
    requires
        0 <= index < len,
    ensures
        cursor_after_calls(index, len, k) == (index + k) % len,
    decreases k,
{
    if k == 0 {
        vstd::arithmetic::div_mod::lemma_small_mod(index as nat, len as nat);
    } else {
        lemma_round_robin(index, len, (k - 1) as nat);
        let prev = (index + k - 1) % len;
        vstd::arithmetic::div_mod::lemma_mod_bound(index + k - 1, len);
        vstd::arithmetic::div_mod::lemma_add_mod_noop(index + k - 1, 1, len);
        if len == 1 {
            vstd::arithmetic::div_mod::lemma_mod_self_0(1);
            assert((index + k) % 1 == 0) by {
                vstd::arithmetic::div_mod::lemma_mod_bound(index + k, 1);
            }
        } else {
            vstd::arithmetic::div_mod::lemma_small_mod(1, len as nat);
            if prev + 1 < len {
                vstd::arithmetic::div_mod::lemma_small_mod((prev + 1) as nat, len as nat);
            } else {
                vstd::arithmetic::div_mod::lemma_mod_self_0(len);
            }
        }
    }
}

/// Two cursors whose next position is the same stay together.
proof fn lemma_same_next(a: int, b: int, len: int, k: nat)
    requires
        k >= 1,
        next_cursor(a, len) == next_cursor(b, len),
    ensures
        cursor_after_calls(a, len, k) == cursor_after_calls(b, len, k),
    decreases k,
{
    if k > 1 {
        lemma_same_next(a, b, len, (k - 1) as nat);
    } else {
        assert(cursor_after_calls(a, len, 0) == a && cursor_after_calls(b, len, 0) == b);
    }
}

/// Two positions `d` apart, with `0 < d < len`, differ modulo `len`.
proof fn lemma_mod_apart(x: int, d: int, len: int)
    requires
        0 <= x,
        0 < d < len,
    ensures
        x % len != (x + d) % len,
{
    vstd::arithmetic::div_mod::lemma_fundamental_div_mod(x, len);
    vstd::arithmetic::div_mod::lemma_fundamental_div_mod(x + d, len);
    vstd::arithmetic::div_mod::lemma_mod_bound(x, len);
    vstd::arithmetic::div_mod::lemma_mod_bound(x + d, len);
    let q1 = x / len;
    let q2 = (x + d) / len;
    if x % len == (x + d) % len {
        assert(d == (q2 - q1) * len) by (nonlinear_arith)
            requires
                x == len * q1 + x % len,
                x + d == len * q2 + (x + d) % len,
                x % len == (x + d) % len,
        ;
        assert(false) by (nonlinear_arith)
            requires
                d == (q2 - q1) * len,
                0 < d < len,
        ;
    }
}

/// Position `j` is where the cursor lands in one of calls `1` to `n` of
/// `get_next_entry`, from `index` in a list of `len` items.
pub open spec fn visited_within(index: int, len: int, n: nat, j: int) -> bool {
    exists|k: nat| 1 <= k <= n && #[trigger] cursor_after_calls(index, len, k) == j
}

/// A full round: from a cursor on an item or on the end marker of a list of
/// `len` items, calls `1` to `len` of `get_next_entry` land on `len`
/// different items, so that every item is visited exactly once.
pub proof fn lemma_full_round(index: int, len: int)
    requires
        0 <= index <= len,
        len >= 1,
    ensures
        forall|k: nat| 1 <= k <= len ==> 0 <= #[trigger] cursor_after_calls(index, len, k) < len,
        forall|k1: nat, k2: nat|
            1 <= k1 < k2 <= len ==> #[trigger] cursor_after_calls(index, len, k1)
                != #[trigger] cursor_after_calls(index, len, k2),
        forall|j: int| 0 <= j < len ==> #[trigger] visited_within(index, len, len as nat, j),
{
    let i0 = if index < len { index } else { len - 1 };
    assert forall|k: nat| 1 <= k <= len implies #[trigger] cursor_after_calls(index, len, k) == (i0 + k)
        % len by {
        lemma_same_next(index, i0, len, k);
        lemma_round_robin(i0, len, k);
    }
    assert forall|k: nat| 1 <= k <= len implies 0 <= #[trigger] cursor_after_calls(index, len, k)
        < len by {
        vstd::arithmetic::div_mod::lemma_mod_bound(i0 + k, len);
    }
    assert forall|k1: nat, k2: nat| 1 <= k1 < k2 <= len implies #[trigger] cursor_after_calls(
        index,
        len,
        k1,
    ) != #[trigger] cursor_after_calls(index, len, k2) by {
        lemma_mod_apart(i0 + k1, k2 - k1, len);
    }
    assert forall|j: int| 0 <= j < len implies #[trigger] visited_within(index, len, len as nat, j) by {
        let k: nat = if j > i0 { (j - i0) as nat } else { (j - i0 + len) as nat };
        if j > i0 {
            vstd::arithmetic::div_mod::lemma_small_mod(j as nat, len as nat);
        } else {
            vstd::arithmetic::div_mod::lemma_small_mod(j as nat, len as nat);
            vstd::arithmetic::div_mod::lemma_mod_add_multiples_vanish(j, len);
        }
        assert(cursor_after_calls(index, len, k) == j);
    }
}

/// `l1` is `l0` after `get_next_entry` returned `r`: the items are kept;
/// on an empty list nothing happens and there is no owner; otherwise the
/// cursor moves to the next item, skipping the end marker, and `r` is that
/// item's owner.
pub open spec fn next_entry_step(l0: List, l1: List, r: Option<usize>) -> bool {
    &&& l1.wf()
    &&& l1.items == l0.items
    &&& l0.items@.len() == 0 ==> r.is_none() && l1.index == l0.index
    &&& l0.items@.len() > 0 ==> {
        &&& l1.index == next_cursor(l0.index as int, l0.items@.len() as int)
        &&& r == l0.items@[l1.index as int].owner
    }
}

/// A round of `get_next_entry`: on a list of `n >= 1` items, `n` successive
/// calls (list states `ls`, results `rs`) keep the items, put the cursor on
/// `n` different items, each item once, starting with the one after the
/// cursor, and return their owners; when no owner occurs twice in the list,
/// the `n` results are `n` different owners.
pub proof fn lemma_next_entry_round(ls: Seq<List>, rs: Seq<Option<usize>>)
    requires
        rs.len() >= 1,
        ls.len() == rs.len() + 1,
        rs.len() == ls[0].items@.len(),
        ls[0].wf(),
        forall|i: int| 0 <= i < rs.len() ==> next_entry_step(#[trigger] ls[i], ls[i + 1], rs[i]),
    ensures
        forall|i: int|
            0 <= i < rs.len() ==> {
                &&& (#[trigger] ls[i + 1]).items == ls[0].items
                &&& ls[i + 1].index == cursor_after_calls(ls[0].index as int, rs.len() as int, (i + 1) as nat)
                &&& rs[i] == ls[0].items@[ls[i + 1].index as int].owner
            },
        forall|i: int, j: int|
            0 <= i < j < rs.len() ==> (#[trigger] ls[i + 1]).index != (#[trigger] ls[j + 1]).index,
        forall|p: int| 0 <= p < rs.len() ==> #[trigger] visited_within(ls[0].index as int, rs.len() as int, rs.len() as nat, p),
        owners_unique(ls[0].items@) ==> forall|i: int, j: int|
            0 <= i < j < rs.len() && (#[trigger] rs[i]).is_some() ==> rs[i] != #[trigger] rs[j],
{
    let n = rs.len() as int;
    let idx = ls[0].index as int;
    lemma_round_prefix(ls, rs, n);
    lemma_full_round(idx, n);
    assert forall|i: int, j: int| 0 <= i < j < n implies (#[trigger] ls[i + 1]).index != (
    #[trigger] ls[j + 1]).index by {
        lemma_round_prefix(ls, rs, i + 1);
        lemma_round_prefix(ls, rs, j + 1);
        assert(cursor_after_calls(idx, n, (i + 1) as nat) != cursor_after_calls(idx, n, (j + 1) as nat));
    }
    assert forall|i: int| 0 <= i < n implies {
        &&& (#[trigger] ls[i + 1]).items == ls[0].items
        &&& ls[i + 1].index == cursor_after_calls(idx, n, (i + 1) as nat)
        &&& rs[i] == ls[0].items@[ls[i + 1].index as int].owner
    } by {
        lemma_round_prefix(ls, rs, i + 1);
    }
    if owners_unique(ls[0].items@) {
        assert forall|i: int, j: int| 0 <= i < j < n && (#[trigger] rs[i]).is_some() implies rs[i]
            != #[trigger] rs[j] by {
            lemma_round_prefix(ls, rs, i + 1);
            lemma_round_prefix(ls, rs, j + 1);
            assert(cursor_after_calls(idx, n, (i + 1) as nat) != cursor_after_calls(idx, n, (j + 1) as nat));
            assert(0 <= cursor_after_calls(idx, n, (i + 1) as nat) < n);
            assert(0 <= cursor_after_calls(idx, n, (j + 1) as nat) < n);
        }
    }
}

/// After the first `m` calls of such a round, the items are kept and the
/// cursor is where `cursor_after_calls` says.
proof fn lemma_round_prefix(ls: Seq<List>, rs: Seq<Option<usize>>, m: int)
    requires
        rs.len() >= 1,
        ls.len() == rs.len() + 1,
        rs.len() == ls[0].items@.len(),
        ls[0].wf(),
        forall|i: int| 0 <= i < rs.len() ==> next_entry_step(#[trigger] ls[i], ls[i + 1], rs[i]),
        0 <= m <= rs.len(),
    ensures
        ls[m].items == ls[0].items,
        ls[m].index == cursor_after_calls(ls[0].index as int, rs.len() as int, m as nat),
        m >= 1 ==> rs[m - 1] == ls[0].items@[ls[m].index as int].owner,
    decreases m,
{
    if m > 0 {
        lemma_round_prefix(ls, rs, m - 1);
        assert(next_entry_step(ls[m - 1], ls[m], rs[m - 1]));
    }
}

/// Taking out an item keeps the cursor where it was: on the same item when
/// it pointed at another one, on the end marker when it pointed there, and
/// on the item before (the end marker for the first) when that item itself
/// was taken out.
pub proof fn lemma_remove_keeps_cursor(s: Seq<ListItem>, index: int, pos: int)
    requires
        0 <= pos < s.len(),
        0 <= index <= s.len(),
    ensures
        index != pos && index < s.len() ==> s.remove(pos)[cursor_after_remove(index, pos, s.len() - 1)]
            == s[index],
        index == s.len() ==> cursor_after_remove(index, pos, s.len() - 1) == s.len() - 1,
        index == pos && pos > 0 ==> s.remove(pos)[cursor_after_remove(index, pos, s.len() - 1)]
            == s[pos - 1],
        index == pos && pos == 0 ==> cursor_after_remove(index, pos, s.len() - 1) == s.len() - 1,
        0 <= cursor_after_remove(index, pos, s.len() - 1) <= s.len() - 1,
{
}

/// Taking out the item just put in gives the list back.
pub proof fn lemma_insert_then_remove(s: Seq<ListItem>, p: int, item: ListItem)
    requires
        0 <= p <= s.len(),
    ensures
        s.insert(p, item).remove(p) == s,
{
    assert(s.insert(p, item).remove(p) =~= s);
}

} // verus!
