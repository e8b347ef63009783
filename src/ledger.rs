use vstd::prelude::*;
use vstd::string::StringExecFns;

verus! {

/// Which side of the book a price level rests on.
#[derive(Clone, Copy, Debug, PartialEq, Eq, Structural)]
pub enum Side {
    Bid,
    Ask,
}

/// What a diff entry does to its price level.
#[derive(Clone, Copy, Debug, PartialEq, Eq, Structural)]
pub enum Action {
    New,
    Change,
    Delete,
}

/// The action that a feed entry names: "new", "change" or "delete".
pub open spec fn action_named(name: Seq<char>) -> Option<Action> {
    if name == "new"@ {
        Some(Action::New)
    } else if name == "change"@ {
        Some(Action::Change)
    } else if name == "delete"@ {
        Some(Action::Delete)
    } else {
        None
    }
}

impl Action {
    /// Reads the action named in a feed entry; `None` for any other name.
    pub fn from_name(name: &String) -> (r: Option<Action>)
        ensures
            r == action_named(name@),
    {
        if *name == <String as StringExecFns>::from_str("new") {
            Some(Action::New)
        } else if *name == <String as StringExecFns>::from_str("change") {
            Some(Action::Change)
        } else if *name == <String as StringExecFns>::from_str("delete") {
            Some(Action::Delete)
        } else {
            None
        }
    }
}

/// Why a message or an entry was refused.
#[derive(Clone, Copy, Debug, PartialEq, Eq, Structural)]
pub enum BookError {
    /// A Change or Delete named a price key that is not in the book.
    InvalidDiff,
    /// The message is not well formed (a non-positive size, a change-id
    /// that does not move forward, another instrument).
    MalformedMessage,
}

/// One instruction of a diff: what to do at which price key, with what size.
#[derive(Clone, Copy, Debug, PartialEq, Eq, Structural)]
pub struct DiffEntry {
    pub action: Action,
    pub key: u64,
    pub size: i64,
}

/// Keys strictly increase along the sequence.
pub open spec fn sorted(s: Seq<(u64, i64)>) -> bool {
    forall|i: int, j: int| 0 <= i < j < s.len() ==> #[trigger] s[i].0 < #[trigger] s[j].0
}

pub open spec fn has_key(s: Seq<(u64, i64)>, k: u64) -> bool {
    exists|i: int| 0 <= i < s.len() && #[trigger] s[i].0 == k
}

/// The price levels of a sequence, as a map from key to size.
pub open spec fn levels_map(s: Seq<(u64, i64)>) -> Map<u64, i64> {
    Map::new(
        |k: u64| has_key(s, k),
        |k: u64| s[choose|i: int| 0 <= i < s.len() && #[trigger] s[i].0 == k].1,
    )
}

/// The map that inserting `entries` one after another into an empty side
/// leaves: a later entry for a key overrides an earlier one.
pub open spec fn entries_map(entries: Seq<(u64, i64)>) -> Map<u64, i64>
    decreases entries.len(),
{
    if entries.len() == 0 {
        Map::empty()
    } else {
        let last = entries[entries.len() - 1];
        entries_map(entries.drop_last()).insert(last.0, last.1)
    }
}

/// Every entry has a positive size.
pub open spec fn all_positive(entries: Seq<(u64, i64)>) -> bool {
    forall|i: int| 0 <= i < entries.len() ==> #[trigger] entries[i].1 > 0
}

/// Every level of a side holds a positive size: a level of size zero or
/// less is absent.
pub open spec fn sizes_all_positive(m: Map<u64, i64>) -> bool {
    forall|k: u64| #[trigger] m.contains_key(k) ==> m[k] > 0
}

/// `a` is a more competitive price than `b` on `side`.
pub open spec fn beats(side: Side, a: u64, b: u64) -> bool {
    match side {
        Side::Bid => a > b,
        Side::Ask => a < b,
    }
}

/// `r` is the top of `m` on `side`: "no liquidity" exactly when `m` is
/// empty, else the most competitive key with its size.
pub open spec fn is_top(side: Side, m: Map<u64, i64>, r: Option<(u64, i64)>) -> bool {
    match r {
        None => m.dom() == Set::<u64>::empty(),
        Some(level) => m.contains_key(level.0) && m[level.0] == level.1 && forall|q: u64|
            #[trigger] m.contains_key(q) ==> !beats(side, q, level.0),
    }
}

/// What one entry does to a side's map.
pub open spec fn entry_result(m: Map<u64, i64>, action: Action, key: u64, size: i64) -> Result<
    Map<u64, i64>,
    BookError,
> {
    match action {
        Action::New => if size > 0 {
            Ok(m.insert(key, size))
        } else {
            Err(BookError::MalformedMessage)
        },
        Action::Change => if size <= 0 {
            Err(BookError::MalformedMessage)
        } else if m.contains_key(key) {
            Ok(m.insert(key, size))
        } else {
            Err(BookError::InvalidDiff)
        },
        Action::Delete => if m.contains_key(key) {
            Ok(m.remove(key))
        } else {
            Err(BookError::InvalidDiff)
        },
    }
}

/// What a run of entries does to a side's map: the first refused entry
/// decides the error.
pub open spec fn entries_result(m: Map<u64, i64>, entries: Seq<DiffEntry>) -> Result<
    Map<u64, i64>,
    BookError,
>
    decreases entries.len(),
{
    if entries.len() == 0 {
        Ok(m)
    } else {
        match entries_result(m, entries.drop_last()) {
            Ok(m2) => {
                let e = entries[entries.len() - 1];
                entry_result(m2, e.action, e.key, e.size)
            },
            Err(err) => Err(err),
        }
    }
}

/// New and Change entries carry a positive size.
pub open spec fn entries_well_formed(entries: Seq<DiffEntry>) -> bool {
    forall|i: int|
        0 <= i < entries.len() && #[trigger] entries[i].action != Action::Delete
            ==> entries[i].size > 0
}

/// The other side of the book.
pub open spec fn opposite(side: Side) -> Side {
    match side {
        Side::Bid => Side::Ask,
        Side::Ask => Side::Bid,
    }
}

/// The cached top of a sorted sequence.
pub open spec fn extreme(side: Side, s: Seq<(u64, i64)>) -> Option<(u64, i64)> {
    if s.len() == 0 {
        None
    } else {
        match side {
            Side::Bid => Some(s[s.len() - 1]),
            Side::Ask => Some(s[0]),
        }
    }
}

proof fn lemma_map_at(s: Seq<(u64, i64)>, i: int)
    requires
        sorted(s),
        0 <= i < s.len(),
    ensures
        levels_map(s).contains_key(s[i].0),
        levels_map(s)[s[i].0] == s[i].1,
{
    assert(has_key(s, s[i].0));
    let j = choose|j: int| 0 <= j < s.len() && #[trigger] s[j].0 == s[i].0;
    if j < i {
        assert(s[j].0 < s[i].0);
    } else if j > i {
        assert(s[i].0 < s[j].0);
    }
}

proof fn lemma_map_positive(s: Seq<(u64, i64)>)
    requires
        sorted(s),
        all_positive(s),
    ensures
        sizes_all_positive(levels_map(s)),
{
    assert forall|k: u64| #[trigger] levels_map(s).contains_key(k) implies levels_map(s)[k] > 0 by {
        let i = choose|i: int| 0 <= i < s.len() && #[trigger] s[i].0 == k;
        lemma_map_at(s, i);
    }
}

proof fn lemma_top(side: Side, s: Seq<(u64, i64)>)
    requires
        sorted(s),
    ensures
        is_top(side, levels_map(s), extreme(side, s)),
{
    let m = levels_map(s);
    if s.len() == 0 {
        assert(m.dom() =~= Set::<u64>::empty());
    } else {
        let t: int = match side {
            Side::Bid => s.len() - 1,
            Side::Ask => 0,
        };
        lemma_map_at(s, t);
        assert forall|q: u64| #[trigger] m.contains_key(q) implies !beats(side, q, s[t].0) by {
            let i = choose|i: int| 0 <= i < s.len() && #[trigger] s[i].0 == q;
            if i != t {
                if i < t {
                    assert(s[i].0 < s[t].0);
                } else {
                    assert(s[t].0 < s[i].0);
                }
            }
        }
    }
}

proof fn lemma_insert_at(s: Seq<(u64, i64)>, p: int, k: u64, v: i64)
    requires
        sorted(s),
        0 <= p <= s.len(),
        forall|j: int| 0 <= j < p ==> #[trigger] s[j].0 < k,
        forall|j: int| p <= j < s.len() ==> k < #[trigger] s[j].0,
    ensures
        sorted(s.insert(p, (k, v))),
        levels_map(s.insert(p, (k, v))) =~= levels_map(s).insert(k, v),
{
    let t = s.insert(p, (k, v));
    assert forall|i: int, j: int| 0 <= i < j < t.len() implies #[trigger] t[i].0
        < #[trigger] t[j].0 by {
        if j < p {
            assert(t[i] == s[i] && t[j] == s[j]);
        } else if j == p {
            assert(t[i] == s[i]);
        } else if i < p {
            assert(t[i] == s[i] && t[j] == s[j - 1]);
        } else if i == p {
            assert(t[j] == s[j - 1]);
        } else {
            assert(t[i] == s[i - 1] && t[j] == s[j - 1]);
        }
    }
    let a = levels_map(t);
    let b = levels_map(s).insert(k, v);
    assert forall|q: u64| #[trigger] a.contains_key(q) <==> b.contains_key(q) by {
        if a.contains_key(q) && q != k {
            let i = choose|i: int| 0 <= i < t.len() && #[trigger] t[i].0 == q;
            if i < p {
                assert(s[i].0 == q);
            } else {
                assert(s[i - 1].0 == q);
            }
        }
        if b.contains_key(q) {
            if q == k {
                assert(t[p].0 == q);
            } else {
                let i = choose|i: int| 0 <= i < s.len() && #[trigger] s[i].0 == q;
                if i < p {
                    assert(t[i].0 == q);
                } else {
                    assert(t[i + 1].0 == q);
                }
            }
        }
    }
    assert forall|q: u64| #[trigger] a.contains_key(q) implies a[q] == b[q] by {
        let i = choose|i: int| 0 <= i < t.len() && #[trigger] t[i].0 == q;
        lemma_map_at(t, i);
        if i < p {
            lemma_map_at(s, i);
        } else if i > p {
            lemma_map_at(s, i - 1);
        }
    }
}

proof fn lemma_update_at(s: Seq<(u64, i64)>, p: int, v: i64)
    requires
        sorted(s),
        0 <= p < s.len(),
    ensures
        sorted(s.update(p, (s[p].0, v))),
        levels_map(s.update(p, (s[p].0, v))) =~= levels_map(s).insert(s[p].0, v),
{
    let k = s[p].0;
    let t = s.update(p, (k, v));
    assert forall|i: int, j: int| 0 <= i < j < t.len() implies #[trigger] t[i].0
        < #[trigger] t[j].0 by {
        assert(s[i].0 < s[j].0);
    }
    let a = levels_map(t);
    let b = levels_map(s).insert(k, v);
    assert forall|q: u64| #[trigger] a.contains_key(q) <==> b.contains_key(q) by {
        if a.contains_key(q) {
            let i = choose|i: int| 0 <= i < t.len() && #[trigger] t[i].0 == q;
            assert(s[i].0 == q);
        }
        if b.contains_key(q) {
            if q == k {
                assert(t[p].0 == q);
            } else {
                let i = choose|i: int| 0 <= i < s.len() && #[trigger] s[i].0 == q;
                assert(t[i].0 == q);
            }
        }
    }
    assert forall|q: u64| #[trigger] a.contains_key(q) implies a[q] == b[q] by {
        let i = choose|i: int| 0 <= i < t.len() && #[trigger] t[i].0 == q;
        lemma_map_at(t, i);
        if i != p {
            lemma_map_at(s, i);
        }
    }
}

proof fn lemma_remove_at(s: Seq<(u64, i64)>, p: int)
    requires
        sorted(s),
        0 <= p < s.len(),
    ensures
        sorted(s.remove(p)),
        levels_map(s.remove(p)) =~= levels_map(s).remove(s[p].0),
{
    let k = s[p].0;
    let t = s.remove(p);
    assert forall|i: int, j: int| 0 <= i < j < t.len() implies #[trigger] t[i].0
        < #[trigger] t[j].0 by {
        if j < p {
            assert(t[i] == s[i] && t[j] == s[j]);
        } else if i < p {
            assert(t[i] == s[i] && t[j] == s[j + 1]);
        } else {
            assert(t[i] == s[i + 1] && t[j] == s[j + 1]);
        }
    }
    let a = levels_map(t);
    let b = levels_map(s).remove(k);
    assert forall|q: u64| #[trigger] a.contains_key(q) <==> b.contains_key(q) by {
        if a.contains_key(q) {
            let i = choose|i: int| 0 <= i < t.len() && #[trigger] t[i].0 == q;
            if i < p {
                assert(s[i].0 == q);
                assert(s[i].0 < s[p].0);
            } else {
                assert(s[i + 1].0 == q);
                assert(s[p].0 < s[i + 1].0);
            }
        }
        if b.contains_key(q) {
            let i = choose|i: int| 0 <= i < s.len() && #[trigger] s[i].0 == q;
            if i < p {
                assert(t[i].0 == q);
            } else {
                assert(i != p);
                assert(t[i - 1].0 == q);
            }
        }
    }
    assert forall|q: u64| #[trigger] a.contains_key(q) implies a[q] == b[q] by {
        let i = choose|i: int| 0 <= i < t.len() && #[trigger] t[i].0 == q;
        lemma_map_at(t, i);
        if i < p {
            lemma_map_at(s, i);
        } else {
            lemma_map_at(s, i + 1);
        }
    }
}


/// One side of the book: price levels kept in strictly increasing key order,
/// every size positive, with the top of the side cached for O(1) reads.
pub struct Ladder {
    side: Side,
    levels: Vec<(u64, i64)>,
    best: Option<(u64, i64)>,
}

impl Ladder {
    /// The side's price levels as a map from key to size.
    pub closed spec fn view(&self) -> Map<u64, i64> {
        levels_map(self.levels@)
    }

    pub closed spec fn side_spec(&self) -> Side {
        self.side
    }

    pub closed spec fn wf(&self) -> bool {
        &&& sorted(self.levels@)
        &&& all_positive(self.levels@)
        &&& self.best == extreme(self.side, self.levels@)
    }

    /// An empty side.
    pub fn new(side: Side) -> (r: Ladder)
        ensures
            r.wf(),
            r.side_spec() == side,
            r@ == Map::<u64, i64>::empty(),
    {
        let r = Ladder { side, levels: Vec::new(), best: None };
        assert(r@ =~= Map::<u64, i64>::empty());
        r
    }

    pub fn side(&self) -> (r: Side)
        ensures
            r == self.side_spec(),
    {
        self.side
    }

    /// Number of price levels on the side.
    pub fn len(&self) -> (r: usize)
        requires
            self.wf(),
        ensures
            r == self@.dom().len(),
    {
        proof {
            lemma_len(self.levels@);
        }
        self.levels.len()
    }

    /// The most competitive level (highest bid, lowest ask), read from the
    /// cache; `None` when the side holds no liquidity.
    pub fn best(&self) -> (r: Option<(u64, i64)>)
        requires
            self.wf(),
        ensures
            is_top(self.side_spec(), self@, r),
    {
        proof {
            lemma_top(self.side, self.levels@);
        }
        self.best
    }

    /// The size resting at `key`, if any.
    pub fn size_at(&self, key: u64) -> (r: Option<i64>)
        requires
            self.wf(),
        ensures
            r == (if self@.contains_key(key) {
                Some(self@[key])
            } else {
                None::<i64>
            }),
    {
        let p = self.position(key);
        if p < self.levels.len() && self.levels[p].0 == key {
            proof {
                lemma_map_at(self.levels@, p as int);
            }
            Some(self.levels[p].1)
        } else {
            None
        }
    }

    /// The first index whose key is not below `key`.
    fn position(&self, key: u64) -> (p: usize)
        requires
            sorted(self.levels@),
        ensures
            p <= self.levels@.len(),
            forall|j: int| 0 <= j < p ==> #[trigger] self.levels@[j].0 < key,
            forall|j: int| p <= j < self.levels@.len() ==> key <= #[trigger] self.levels@[j].0,
            p == self.levels@.len() || self.levels@[p as int].0 != key ==> !self@.contains_key(
                key,
            ),
    {
        let mut i: usize = 0;
        while i < self.levels.len() && self.levels[i].0 < key
            invariant
                sorted(self.levels@),
                i <= self.levels@.len(),
                forall|j: int| 0 <= j < i ==> #[trigger] self.levels@[j].0 < key,
            decreases self.levels@.len() - i,
        {
            i = i + 1;
        }
        proof {
            let s = self.levels@;
            assert forall|j: int| i <= j < s.len() implies key <= #[trigger] s[j].0 by {
                if j > i {
                    assert(s[i as int].0 < s[j].0);
                }
            }
            if self@.contains_key(key) {
                let j = choose|j: int| 0 <= j < s.len() && #[trigger] s[j].0 == key;
                if j > i {
                    assert(s[i as int].0 < s[j].0);
                }
            }
        }
        i
    }

    fn refresh_best(&mut self)
        requires
            sorted(old(self).levels@),
            all_positive(old(self).levels@),
        ensures
            final(self).wf(),
            final(self).levels == old(self).levels,
            final(self).side == old(self).side,
    {
        let n = self.levels.len();
        if n == 0 {
            self.best = None;
        } else {
            match self.side {
                Side::Bid => {
                    self.best = Some(self.levels[n - 1]);
                },
                Side::Ask => {
                    self.best = Some(self.levels[0]);
                },
            }
        }
    }

    /// Sets the size at `key`, adding the level if it is absent.
    fn put(&mut self, key: u64, size: i64)
        requires
            old(self).wf(),
            size > 0,
        ensures
            final(self).wf(),
            final(self).side == old(self).side,
            final(self)@ == old(self)@.insert(key, size),
    {
        let p = self.position(key);
        if p < self.levels.len() && self.levels[p].0 == key {
            proof {
                lemma_update_at(self.levels@, p as int, size);
            }
            self.levels.set(p, (key, size));
        } else {
            proof {
                lemma_insert_at(self.levels@, p as int, key, size);
            }
            self.levels.insert(p, (key, size));
        }
        self.refresh_best();
    }

    /// Applies one diff entry to the side. A refused entry leaves the side
    /// as it was.
    pub fn apply(&mut self, action: Action, key: u64, size: i64) -> (r: Result<(), BookError>)
        requires
            old(self).wf(),
        ensures
            final(self).wf(),
            final(self).side_spec() == old(self).side_spec(),
            match entry_result(old(self)@, action, key, size) {
                Ok(m) => r == Ok::<(), BookError>(()) && final(self)@ == m,
                Err(e) => r == Err::<(), BookError>(e) && *final(self) == *old(self),
            },
    {
        match action {
            Action::New => {
                if size <= 0 {
                    return Err(BookError::MalformedMessage);
                }
                self.put(key, size);
                Ok(())
            },
            Action::Change => {
                if size <= 0 {
                    return Err(BookError::MalformedMessage);
                }
                let p = self.position(key);
                if p < self.levels.len() && self.levels[p].0 == key {
                    proof {
                        lemma_update_at(self.levels@, p as int, size);
                    }
                    self.levels.set(p, (key, size));
                    self.refresh_best();
                    Ok(())
                } else {
                    Err(BookError::InvalidDiff)
                }
            },
            Action::Delete => {
                let p = self.position(key);
                if p < self.levels.len() && self.levels[p].0 == key {
                    proof {
                        lemma_remove_at(self.levels@, p as int);
                    }
                    self.levels.remove(p);
                    let was_best = match self.best {
                        Some(level) => level.0 == key,
                        None => false,
                    };
                    if was_best {
                        self.refresh_best();
                    } else {
                        proof {
                            let s = old(self).levels@;
                            assert(self.levels@ =~= s.remove(p as int));
                            if s.len() > 1 {
                                match self.side {
                                    Side::Bid => {
                                        assert(self.levels@[self.levels@.len() - 1] == s[s.len()
                                            - 1]);
                                    },
                                    Side::Ask => {
                                        assert(self.levels@[0] == s[0]);
                                    },
                                }
                            }
                        }
                    }
                    Ok(())
                } else {
                    Err(BookError::InvalidDiff)
                }
            },
        }
    }

    /// Applies `entries` in order. On a refused entry the error is that of
    /// the first refused entry, and the side holds what the entries before
    /// it made of it.
    pub fn apply_all(&mut self, entries: &Vec<DiffEntry>) -> (r: Result<(), BookError>)
        requires
            old(self).wf(),
        ensures
            final(self).wf(),
            final(self).side_spec() == old(self).side_spec(),
            match entries_result(old(self)@, entries@) {
                Ok(m) => r == Ok::<(), BookError>(()) && final(self)@ == m,
                Err(e) => r == Err::<(), BookError>(e) && exists|n: int|
                    0 <= n < entries@.len() && entries_result(old(self)@, entries@.subrange(0, n))
                        == Ok::<Map<u64, i64>, BookError>(final(self)@) && entry_result(
                        final(self)@,
                        #[trigger] entries@[n].action,
                        entries@[n].key,
                        entries@[n].size,
                    ) == Err::<Map<u64, i64>, BookError>(e),
            },
    {
        let mut i: usize = 0;
        while i < entries.len()
            invariant
                self.wf(),
                self.side == old(self).side,
                i <= entries@.len(),
                entries_result(old(self)@, entries@.subrange(0, i as int)) == Ok::<
                    Map<u64, i64>,
                    BookError,
                >(self@),
            decreases entries@.len() - i,
        {
            let e = entries[i];
            proof {
                assert(entries@.subrange(0, i + 1).drop_last() =~= entries@.subrange(0, i as int));
            }
            let step = self.apply(e.action, e.key, e.size);
            match step {
                Ok(()) => {},
                Err(err) => {
                    proof {
                        lemma_result_prefix(old(self)@, entries@, i as int + 1);
                        assert(entries@[i as int] == e);
                    }
                    return Err(err);
                },
            }
            i = i + 1;
        }
        proof {
            assert(entries@.subrange(0, entries@.len() as int) =~= entries@);
        }
        Ok(())
    }

    /// The side's levels in increasing key order.
    pub fn to_vec(&self) -> (r: Vec<(u64, i64)>)
        requires
            self.wf(),
        ensures
            sorted(r@),
            levels_map(r@) == self@,
    {
        self.copy_levels()
    }

    fn copy_levels(&self) -> (r: Vec<(u64, i64)>)
        ensures
            r@ == self.levels@,
    {
        let mut levels: Vec<(u64, i64)> = Vec::new();
        let mut i: usize = 0;
        while i < self.levels.len()
            invariant
                i <= self.levels@.len(),
                levels@ == self.levels@.subrange(0, i as int),
            decreases self.levels@.len() - i,
        {
            levels.push(self.levels[i]);
            proof {
                assert(levels@ =~= self.levels@.subrange(0, i + 1));
            }
            i = i + 1;
        }
        proof {
            assert(levels@ =~= self.levels@);
        }
        levels
    }

    /// A copy of the side.
    pub fn duplicate(&self) -> (r: Ladder)
        requires
            self.wf(),
        ensures
            r.wf(),
            r@ == self@,
            r.side_spec() == self.side_spec(),
    {
        let levels = self.copy_levels();
        Ladder { side: self.side, levels, best: self.best }
    }

    /// Empties the side and fills it from `entries` in one pass; a later
    /// entry for a key overrides an earlier one. With a non-positive size
    /// among the entries the side is left as it was.
    pub fn replace(&mut self, entries: &Vec<(u64, i64)>) -> (r: Result<(), BookError>)
        requires
            old(self).wf(),
        ensures
            final(self).wf(),
            final(self).side_spec() == old(self).side_spec(),
            all_positive(entries@) ==> r == Ok::<(), BookError>(()) && final(self)@
                == entries_map(entries@),
            !all_positive(entries@) ==> r == Err::<(), BookError>(BookError::MalformedMessage)
                && *final(self) == *old(self),
    {
        if !sizes_positive(entries) {
            return Err(BookError::MalformedMessage);
        }
        self.levels.clear();
        self.best = None;
        proof {
            assert(self@ =~= Map::<u64, i64>::empty());
        }
        let mut i: usize = 0;
        while i < entries.len()
            invariant
                self.wf(),
                self.side == old(self).side,
                i <= entries@.len(),
                all_positive(entries@),
                self@ == entries_map(entries@.subrange(0, i as int)),
            decreases entries@.len() - i,
        {
            let (key, size) = entries[i];
            self.put(key, size);
            proof {
                let t = entries@.subrange(0, i + 1);
                assert(t.drop_last() =~= entries@.subrange(0, i as int));
            }
            i = i + 1;
        }
        proof {
            assert(entries@.subrange(0, entries@.len() as int) =~= entries@);
        }
        Ok(())
    }
}

/// Once an entry of a run is refused, the whole run fails with the error
/// of the first refused entry.
proof fn lemma_result_prefix(m: Map<u64, i64>, entries: Seq<DiffEntry>, n: int)
    requires
        0 <= n <= entries.len(),
        entries_result(m, entries.subrange(0, n)) is Err,
    ensures
        entries_result(m, entries) == entries_result(m, entries.subrange(0, n)),
    decreases entries.len() - n,
{
    if n < entries.len() {
        assert(entries.subrange(0, n + 1).drop_last() =~= entries.subrange(0, n));
        lemma_result_prefix(m, entries, n + 1);
    } else {
        assert(entries.subrange(0, n) =~= entries);
    }
}

/// Whether every entry has a positive size.
pub fn sizes_positive(entries: &Vec<(u64, i64)>) -> (r: bool)
    ensures
        r == all_positive(entries@),
{
    let mut k: usize = 0;
    while k < entries.len()
        invariant
            k <= entries@.len(),
            forall|j: int| 0 <= j < k ==> #[trigger] entries@[j].1 > 0,
        decreases entries@.len() - k,
    {
        if entries[k].1 <= 0 {
            return false;
        }
        k = k + 1;
    }
    true
}

/// Both sides of one instrument's book.
pub struct Ledger {
    bids: Ladder,
    asks: Ladder,
}

impl Ledger {
    pub closed spec fn wf(&self) -> bool {
        &&& self.bids.wf()
        &&& self.asks.wf()
        &&& self.bids.side_spec() == Side::Bid
        &&& self.asks.side_spec() == Side::Ask
    }

    /// The price levels of `side`, as a map from key to size.
    pub closed spec fn levels(&self, side: Side) -> Map<u64, i64> {
        match side {
            Side::Bid => self.bids@,
            Side::Ask => self.asks@,
        }
    }

    /// Every level on either side of a well-formed book holds a positive
    /// size.
    pub proof fn lemma_sizes_positive(&self)
        requires
            self.wf(),
        ensures
            sizes_all_positive(self.levels(Side::Bid)),
            sizes_all_positive(self.levels(Side::Ask)),
    {
        lemma_map_positive(self.bids.levels@);
        lemma_map_positive(self.asks.levels@);
    }

    /// An empty book.
    pub fn new() -> (r: Ledger)
        ensures
            r.wf(),
            r.levels(Side::Bid) == Map::<u64, i64>::empty(),
            r.levels(Side::Ask) == Map::<u64, i64>::empty(),
    {
        Ledger { bids: Ladder::new(Side::Bid), asks: Ladder::new(Side::Ask) }
    }

    /// Clears `side` and fills it from `entries` (a later entry for a key
    /// overrides an earlier one). A non-positive size among the entries
    /// refuses the call and leaves the book as it was.
    pub fn replace_side(&mut self, side: Side, entries: &Vec<(u64, i64)>) -> (r: Result<
        (),
        BookError,
    >)
        requires
            old(self).wf(),
        ensures
            final(self).wf(),
            final(self).levels(opposite(side)) == old(self).levels(opposite(side)),
            all_positive(entries@) ==> r == Ok::<(), BookError>(()) && final(self).levels(side)
                == entries_map(entries@),
            !all_positive(entries@) ==> r == Err::<(), BookError>(BookError::MalformedMessage)
                && *final(self) == *old(self),
    {
        match side {
            Side::Bid => self.bids.replace(entries),
            Side::Ask => self.asks.replace(entries),
        }
    }

    /// Applies one entry to `side`. A refused entry leaves the book as it
    /// was.
    pub fn apply_entry(&mut self, side: Side, action: Action, key: u64, size: i64) -> (r: Result<
        (),
        BookError,
    >)
        requires
            old(self).wf(),
        ensures
            final(self).wf(),
            final(self).levels(opposite(side)) == old(self).levels(opposite(side)),
            match entry_result(old(self).levels(side), action, key, size) {
                Ok(m) => r == Ok::<(), BookError>(()) && final(self).levels(side) == m,
                Err(e) => r == Err::<(), BookError>(e) && *final(self) == *old(self),
            },
    {
        match side {
            Side::Bid => self.bids.apply(action, key, size),
            Side::Ask => self.asks.apply(action, key, size),
        }
    }

    /// Applies the ask entries, then the bid entries, of one diff, all or
    /// nothing: when an entry is refused the book is left as it was.
    pub fn apply_diff(&mut self, bids: &Vec<DiffEntry>, asks: &Vec<DiffEntry>) -> (r: Result<
        (),
        BookError,
    >)
        requires
            old(self).wf(),
        ensures
            final(self).wf(),
            match (
                entries_result(old(self).levels(Side::Ask), asks@),
                entries_result(old(self).levels(Side::Bid), bids@),
            ) {
                (Ok(a), Ok(b)) => r == Ok::<(), BookError>(()) && final(self).levels(Side::Ask)
                    == a && final(self).levels(Side::Bid) == b,
                (Err(e), _) => r == Err::<(), BookError>(e) && *final(self) == *old(self),
                (Ok(_), Err(e)) => r == Err::<(), BookError>(e) && *final(self) == *old(self),
            },
    {
        let mut new_asks = self.asks.duplicate();
        let ra = new_asks.apply_all(asks);
        if let Err(e) = ra {
            return Err(e);
        }
        let mut new_bids = self.bids.duplicate();
        let rb = new_bids.apply_all(bids);
        if let Err(e) = rb {
            return Err(e);
        }
        self.asks = new_asks;
        self.bids = new_bids;
        Ok(())
    }

    /// The most competitive level of `side`, or `None` for no liquidity.
    pub fn best_of_side(&self, side: Side) -> (r: Option<(u64, i64)>)
        requires
            self.wf(),
        ensures
            is_top(side, self.levels(side), r),
    {
        match side {
            Side::Bid => self.bids.best(),
            Side::Ask => self.asks.best(),
        }
    }

    /// The size resting at `key` on `side`, if any.
    pub fn size_at(&self, side: Side, key: u64) -> (r: Option<i64>)
        requires
            self.wf(),
        ensures
            r == (if self.levels(side).contains_key(key) {
                Some(self.levels(side)[key])
            } else {
                None::<i64>
            }),
    {
        match side {
            Side::Bid => self.bids.size_at(key),
            Side::Ask => self.asks.size_at(key),
        }
    }

    /// The levels of `side` in increasing key order.
    pub fn levels_of(&self, side: Side) -> (r: Vec<(u64, i64)>)
        requires
            self.wf(),
        ensures
            sorted(r@),
            levels_map(r@) == self.levels(side),
    {
        match side {
            Side::Bid => self.bids.to_vec(),
            Side::Ask => self.asks.to_vec(),
        }
    }

    /// Number of price levels on `side`.
    pub fn depth(&self, side: Side) -> (r: usize)
        requires
            self.wf(),
        ensures
            r == self.levels(side).dom().len(),
    {
        match side {
            Side::Bid => self.bids.len(),
            Side::Ask => self.asks.len(),
        }
    }
}

/// A side has exactly one top: the best-of-side read is determined by the
/// side's levels.
pub proof fn lemma_top_unique(side: Side, m: Map<u64, i64>, a: Option<(u64, i64)>, b: Option<
    (u64, i64),
>)
    requires
        is_top(side, m, a),
        is_top(side, m, b),
    ensures
        a == b,
{
    match (a, b) {
        (Some(x), Some(y)) => {
            assert(m.contains_key(y.0) && m.contains_key(x.0));
        },
        (Some(x), None) => {
            assert(m.dom().contains(x.0));
        },
        (None, Some(y)) => {
            assert(m.dom().contains(y.0));
        },
        (None, None) => {},
    }
}

/// Inserting a level and then changing it leaves one level at that key,
/// holding the second size: both instructions address the same entry.
pub proof fn lemma_new_then_change(m: Map<u64, i64>, key: u64, first: i64, second: i64)
    requires
        first > 0,
        second > 0,
    ensures
        entry_result(m, Action::New, key, first) == Ok::<Map<u64, i64>, BookError>(
            m.insert(key, first),
        ),
        entry_result(m.insert(key, first), Action::Change, key, second) == Ok::<
            Map<u64, i64>,
            BookError,
        >(m.insert(key, second)),
        m.insert(key, second).dom() == m.dom().insert(key),
{
    assert(m.insert(key, first).insert(key, second) =~= m.insert(key, second));
}

/// Whether every New and Change entry has a positive size.
pub fn entries_valid(entries: &Vec<DiffEntry>) -> (r: bool)
    ensures
        r == entries_well_formed(entries@),
{
    let mut k: usize = 0;
    while k < entries.len()
        invariant
            k <= entries@.len(),
            forall|j: int|
                0 <= j < k && #[trigger] entries@[j].action != Action::Delete ==> entries@[j].size
                    > 0,
        decreases entries@.len() - k,
    {
        let e = entries[k];
        if e.action != Action::Delete && e.size <= 0 {
            return false;
        }
        k = k + 1;
    }
    true
}

/// The side that a load builds holds exactly the keys named by its entries,
/// and with positive entries only positive sizes.
pub proof fn lemma_entries_map_keys(entries: Seq<(u64, i64)>)
    ensures
        forall|k: u64|
            #[trigger] entries_map(entries).contains_key(k) <==> exists|i: int|
                0 <= i < entries.len() && #[trigger] entries[i].0 == k,
        all_positive(entries) ==> sizes_all_positive(entries_map(entries)),
    decreases entries.len(),
{
    if entries.len() > 0 {
        let t = entries.drop_last();
        let last = entries[entries.len() - 1];
        lemma_entries_map_keys(t);
        assert(entries_map(entries) == entries_map(t).insert(last.0, last.1));
        assert forall|k: u64|
            #[trigger] entries_map(entries).contains_key(k) <==> exists|i: int|
                0 <= i < entries.len() && #[trigger] entries[i].0 == k by {
            if entries_map(entries).contains_key(k) && k != last.0 {
                assert(entries_map(t).contains_key(k));
                let i = choose|i: int| 0 <= i < t.len() && #[trigger] t[i].0 == k;
                assert(entries[i].0 == k);
            }
            if exists|i: int| 0 <= i < entries.len() && #[trigger] entries[i].0 == k {
                let i = choose|i: int| 0 <= i < entries.len() && #[trigger] entries[i].0 == k;
                if i < entries.len() - 1 {
                    assert(t[i].0 == k);
                }
            }
        }
        if all_positive(entries) {
            assert(all_positive(t)) by {
                assert forall|i: int| 0 <= i < t.len() implies #[trigger] t[i].1 > 0 by {
                    assert(entries[i].1 > 0);
                }
            }
            assert(last.1 > 0);
        }
    }
}

proof fn lemma_len(s: Seq<(u64, i64)>)
    requires
        sorted(s),
    ensures
        levels_map(s).dom().len() == s.len(),
        levels_map(s).dom().finite(),
    decreases s.len(),
{
    if s.len() == 0 {
        assert(levels_map(s).dom() =~= Set::<u64>::empty());
    } else {
        let t = s.drop_last();
        let k = s[s.len() - 1].0;
        assert(sorted(t));
        lemma_len(t);
        assert(s =~= t.insert(t.len() as int, s[s.len() - 1]));
        assert forall|j: int| 0 <= j < t.len() implies #[trigger] t[j].0 < k by {
            assert(s[j].0 < k);
        }
        lemma_insert_at(t, t.len() as int, k, s[s.len() - 1].1);
        assert(!levels_map(t).contains_key(k)) by {
            if levels_map(t).contains_key(k) {
                let j = choose|j: int| 0 <= j < t.len() && #[trigger] t[j].0 == k;
                assert(t[j].0 < k);
            }
        }
        assert(levels_map(s).dom() =~= levels_map(t).dom().insert(k));
    }
}

} // verus!
