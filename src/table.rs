use vstd::prelude::*;

use crate::entity::{BelongsTo, Constructor, Entity, IntKeyed, StoreError};
use crate::ordering::{sort_rows, sorted, Ordered};

verus! {

/// The mathematical form of an entity's primary key.
pub type KeyOf<R> = <<R as Entity>::Key as View>::V;

/// No two rows of `s` share a primary key.
pub open spec fn keys_unique<R: Entity>(s: Seq<R>) -> bool {
    forall|i: int, j: int|
        0 <= i < s.len() && 0 <= j < s.len() && i != j ==> #[trigger] s[i].key() != #[trigger] s[j].key()
}

/// Some row of `s` has primary key `k`.
pub open spec fn has_key<R: Entity>(s: Seq<R>, k: KeyOf<R>) -> bool {
    exists|i: int| 0 <= i < s.len() && #[trigger] s[i].key() == k
}

/// The position of the row of `s` with primary key `k` (meaningful when there is one).
pub open spec fn key_index<R: Entity>(s: Seq<R>, k: KeyOf<R>) -> int {
    choose|i: int| 0 <= i < s.len() && #[trigger] s[i].key() == k
}

/// The rows of `s` after an upsert of `v`: the row with `v`'s key is replaced by `v`,
/// or `v` is appended when no row has that key.
pub open spec fn upserted<R: Entity>(s: Seq<R>, v: R) -> Seq<R> {
    if has_key(s, v.key()) {
        s.update(key_index(s, v.key()), v)
    } else {
        s.push(v)
    }
}

/// The rows of `new` can be appended to `s` without a clash of primary keys.
pub open spec fn can_append<R: Entity>(s: Seq<R>, new: Seq<R>) -> bool {
    keys_unique(new) && forall|i: int| 0 <= i < new.len() ==> !has_key(s, #[trigger] new[i].key())
}

/// With unique keys, the row that carries key `k` sits at `key_index`.
pub proof fn lemma_key_index<R: Entity>(s: Seq<R>, i: int)
    requires
        keys_unique(s),
        0 <= i < s.len(),
    ensures
        has_key(s, s[i].key()),
        key_index(s, s[i].key()) == i,
{
    let k = s[i].key();
    assert(has_key(s, k));
    let j = key_index(s, k);
    assert(s[j].key() == k);
}

/// One step of a filter over a prefix.
pub proof fn lemma_filter_step<A>(s: Seq<A>, i: int, p: spec_fn(A) -> bool)
    requires
        0 <= i < s.len(),
    ensures
        s.subrange(0, i + 1).filter(p) == (if p(s[i]) {
            s.subrange(0, i).filter(p).push(s[i])
        } else {
            s.subrange(0, i).filter(p)
        }),
{
    reveal(Seq::filter);
    assert(s.subrange(0, i + 1).drop_last() =~= s.subrange(0, i));
}

/// Filtering keeps distinct primary keys distinct.
pub proof fn lemma_filter_keys_unique<R: Entity>(s: Seq<R>, p: spec_fn(R) -> bool)
    requires
        keys_unique(s),
    ensures
        keys_unique(s.filter(p)),
        forall|r: R| #[trigger] s.filter(p).contains(r) ==> s.contains(r) && p(r),
    decreases s.len(),
{
    reveal(Seq::filter);
    if s.len() > 0 {
        let d = s.drop_last();
        assert(keys_unique(d)) by {
            assert forall|i: int, j: int|
                0 <= i < d.len() && 0 <= j < d.len() && i != j implies #[trigger] d[i].key()
                != #[trigger] d[j].key() by {
                assert(d[i] == s[i] && d[j] == s[j]);
            }
        }
        lemma_filter_keys_unique(d, p);
        let f = d.filter(p);
        if p(s.last()) {
            let g = f.push(s.last());
            assert forall|r: R| #[trigger] g.contains(r) implies s.contains(r) && p(r) by {
                if r != s.last() {
                    let j = choose|j: int| 0 <= j < g.len() && g[j] == r;
                    assert(f.contains(r)) by {
                        assert(f[j] == r);
                    }
                    let m = choose|m: int| 0 <= m < d.len() && d[m] == r;
                    assert(s[m] == r);
                } else {
                    assert(s[s.len() - 1] == r);
                }
            }
            assert forall|i: int, j: int|
                0 <= i < g.len() && 0 <= j < g.len() && i != j implies #[trigger] g[i].key()
                != #[trigger] g[j].key() by {
                if i < f.len() && j < f.len() {
                    assert(g[i] == f[i] && g[j] == f[j]);
                } else if i < f.len() {
                    assert(f.contains(g[i]));
                    let m = choose|m: int| 0 <= m < d.len() && d[m] == g[i];
                    assert(s[m] == d[m]);
                    assert(s[s.len() - 1] == g[j]);
                } else {
                    assert(f.contains(g[j]));
                    let m = choose|m: int| 0 <= m < d.len() && d[m] == g[j];
                    assert(s[m] == d[m]);
                    assert(s[s.len() - 1] == g[i]);
                }
            }
        } else {
            assert forall|r: R| #[trigger] f.contains(r) implies s.contains(r) && p(r) by {
                let m = choose|m: int| 0 <= m < d.len() && d[m] == r;
                assert(s[m] == r);
            }
        }
    }
}

/// An upsert keeps primary keys unique.
pub proof fn lemma_upsert_keeps_keys_unique<R: Entity>(s: Seq<R>, v: R)
    requires
        keys_unique(s),
    ensures
        keys_unique(upserted(s, v)),
        has_key(upserted(s, v), v.key()),
        key_index(upserted(s, v), v.key()) == (if has_key(s, v.key()) {
            key_index(s, v.key())
        } else {
            s.len() as int
        }),
{
    let u = upserted(s, v);
    if has_key(s, v.key()) {
        let k = key_index(s, v.key());
        assert(s[k].key() == v.key());
        assert forall|i: int, j: int|
            0 <= i < u.len() && 0 <= j < u.len() && i != j implies #[trigger] u[i].key()
            != #[trigger] u[j].key() by {
            if i != k && j != k {
                assert(u[i] == s[i] && u[j] == s[j]);
            } else if i == k {
                assert(u[j] == s[j]);
            } else {
                assert(u[i] == s[i]);
            }
        }
        lemma_key_index(u, k);
    } else {
        assert forall|i: int, j: int|
            0 <= i < u.len() && 0 <= j < u.len() && i != j implies #[trigger] u[i].key()
            != #[trigger] u[j].key() by {
            if i < s.len() && j < s.len() {
                assert(u[i] == s[i] && u[j] == s[j]);
            } else if i < s.len() {
                assert(u[i] == s[i]);
            } else {
                assert(u[j] == s[j]);
            }
        }
        lemma_key_index(u, s.len() as int);
    }
}

/// Upserting the same row twice leaves the rows as upserting it once does.
pub proof fn lemma_upsert_idempotent<R: Entity>(s: Seq<R>, v: R)
    requires
        keys_unique(s),
    ensures
        upserted(upserted(s, v), v) == upserted(s, v),
{
    let u = upserted(s, v);
    lemma_upsert_keeps_keys_unique(s, v);
    let k = key_index(u, v.key());
    assert(u[k] == v);
    assert(u.update(k, v) =~= u);
}

/// Removing one row keeps primary keys unique.
pub proof fn lemma_remove_keeps_keys_unique<R: Entity>(s: Seq<R>, k: int)
    requires
        keys_unique(s),
        0 <= k < s.len(),
    ensures
        keys_unique(s.remove(k)),
        forall|x: KeyOf<R>| has_key(s.remove(k), x) <==> has_key(s, x) && x != s[k].key(),
{
    let t = s.remove(k);
    assert forall|i: int, j: int|
        0 <= i < t.len() && 0 <= j < t.len() && i != j implies #[trigger] t[i].key()
        != #[trigger] t[j].key() by {
        let a = if i < k { i } else { i + 1 };
        let b = if j < k { j } else { j + 1 };
        assert(t[i] == s[a] && t[j] == s[b]);
    }
    assert forall|x: KeyOf<R>| has_key(t, x) <==> has_key(s, x) && x != s[k].key() by {
        if has_key(t, x) {
            let i = choose|i: int| 0 <= i < t.len() && #[trigger] t[i].key() == x;
            let a = if i < k { i } else { i + 1 };
            assert(t[i] == s[a]);
        }
        if has_key(s, x) && x != s[k].key() {
            let a = choose|a: int| 0 <= a < s.len() && #[trigger] s[a].key() == x;
            let i = if a < k { a } else { a - 1 };
            assert(t[i] == s[a]);
        }
    }
}

/// Appending a row whose key is absent keeps primary keys unique.
pub proof fn lemma_push_keeps_keys_unique<R: Entity>(s: Seq<R>, v: R)
    requires
        keys_unique(s),
        !has_key(s, v.key()),
    ensures
        keys_unique(s.push(v)),
        forall|x: KeyOf<R>| has_key(s.push(v), x) <==> has_key(s, x) || x == v.key(),
{
    let t = s.push(v);
    assert forall|i: int, j: int|
        0 <= i < t.len() && 0 <= j < t.len() && i != j implies #[trigger] t[i].key()
        != #[trigger] t[j].key() by {
        if i < s.len() {
            assert(t[i] == s[i]);
        }
        if j < s.len() {
            assert(t[j] == s[j]);
        }
    }
    assert forall|x: KeyOf<R>| has_key(t, x) <==> has_key(s, x) || x == v.key() by {
        if has_key(t, x) {
            let i = choose|i: int| 0 <= i < t.len() && #[trigger] t[i].key() == x;
            if i < s.len() {
                assert(t[i] == s[i]);
            }
        }
        if has_key(s, x) {
            let a = choose|a: int| 0 <= a < s.len() && #[trigger] s[a].key() == x;
            assert(t[a] == s[a]);
        }
        if x == v.key() {
            assert(t[s.len() as int] == v);
        }
    }
}

/// The largest primary key among the rows of `s` (0 when there are none).
pub open spec fn max_key<R: IntKeyed>(s: Seq<R>) -> int
    decreases s.len(),
{
    if s.len() == 0 {
        0
    } else if s.len() == 1 {
        s[0].key() as int
    } else {
        let m = max_key(s.drop_last());
        let k = s.last().key() as int;
        if k > m {
            k
        } else {
            m
        }
    }
}

/// The key that the store generates for the next row of `s`: one more than the largest
/// key, or 1 for an empty table.
pub open spec fn next_key<R: IntKeyed>(s: Seq<R>) -> int {
    if s.len() == 0 {
        1
    } else {
        max_key(s) + 1
    }
}

/// Every key of `s` is at most `max_key(s)`.
pub proof fn lemma_max_key<R: IntKeyed>(s: Seq<R>)
    ensures
        forall|i: int| 0 <= i < s.len() ==> #[trigger] s[i].key() as int <= max_key(s),
        s.len() > 0 ==> exists|i: int| 0 <= i < s.len() && #[trigger] s[i].key() as int == max_key(s),
    decreases s.len(),
{
    if s.len() > 1 {
        let d = s.drop_last();
        lemma_max_key(d);
        assert forall|i: int| 0 <= i < s.len() implies #[trigger] s[i].key() as int <= max_key(s) by {
            if i < s.len() - 1 {
                assert(s[i] == d[i]);
            }
        }
        if s.last().key() as int <= max_key(d) {
            let i = choose|i: int| 0 <= i < d.len() && #[trigger] d[i].key() as int == max_key(d);
            assert(s[i] == d[i]);
        } else {
            assert(s[s.len() - 1].key() as int == max_key(s));
        }
    } else if s.len() == 1 {
        assert(s[0].key() as int == max_key(s));
    }
}

/// The generated key is at most one past the largest `i32`.
pub proof fn lemma_next_key_bound<R: IntKeyed>(s: Seq<R>)
    ensures
        next_key(s) <= i32::MAX + 1,
{
    lemma_max_key(s);
    if s.len() > 0 {
        let i = choose|i: int| 0 <= i < s.len() && #[trigger] s[i].key() as int == max_key(s);
        assert(s[i].key() as int <= i32::MAX);
    }
}

/// Appending a row under the generated key makes the next generated key one larger.
pub proof fn lemma_next_key_push<R: IntKeyed>(s: Seq<R>, x: R)
    requires
        x.key() as int == next_key(s),
    ensures
        next_key(s.push(x)) == next_key(s) + 1,
{
    lemma_max_key(s);
    let t = s.push(x);
    assert(t.drop_last() =~= s);
    if s.len() > 0 {
        assert(s.last().key() as int <= max_key(s)) by {
            assert(s[s.len() - 1].key() as int <= max_key(s));
        }
    } else {
        assert(t[0] == x);
    }
}

/// The rows of one entity type, in store order, with unique primary keys.
pub struct Table<R> {
    rows: Vec<R>,
}

impl<R> View for Table<R> {
    type V = Seq<R>;

    closed spec fn view(&self) -> Seq<R> {
        self.rows@
    }
}

impl<R: Entity> Table<R> {
    /// The table's invariant: primary keys are unique.
    pub open spec fn wf(&self) -> bool {
        keys_unique(self@)
    }

    /// An empty table.
    pub fn new() -> (t: Self)
        ensures
            t@ == Seq::<R>::empty(),
            t.wf(),
    {
        Table { rows: Vec::new() }
    }

    /// The position of the row with primary key `k`, if any.
    fn position(&self, k: &R::Key) -> (r: Option<usize>)
        requires
            self.wf(),
        ensures
            match r {
                Some(i) => i < self@.len() && self@[i as int].key() == k@ && has_key(self@, k@)
                    && key_index(self@, k@) == i,
                None => !has_key(self@, k@),
            },
    {
        let mut i: usize = 0;
        while i < self.rows.len()
            invariant
                self.wf(),
                i <= self.rows@.len(),
                forall|j: int| 0 <= j < i ==> #[trigger] self.rows@[j].key() != k@,
            decreases self.rows@.len() - i,
        {
            if self.rows[i].has_key(k) {
                proof {
                    lemma_key_index(self@, i as int);
                }
                return Some(i);
            }
            i = i + 1;
        }
        None
    }

    /// Every row, in store order.
    pub fn all(&self) -> (r: Vec<R>)
        ensures
            r@ == self@,
    {
        let mut out: Vec<R> = Vec::new();
        let mut i: usize = 0;
        while i < self.rows.len()
            invariant
                i <= self.rows@.len(),
                out@ == self.rows@.subrange(0, i as int),
            decreases self.rows@.len() - i,
        {
            out.push(self.rows[i].copy_row());
            i = i + 1;
            assert(out@ =~= self.rows@.subrange(0, i as int));
        }
        assert(out@ =~= self.rows@);
        out
    }

    /// The row at position `i`, in store order.
    pub fn get(&self, i: usize) -> (r: &R)
        requires
            i < self@.len(),
        ensures
            *r == self@[i as int],
    {
        &self.rows[i]
    }

    /// A copy of the whole table.
    pub fn snapshot(&self) -> (r: Self)
        ensures
            r@ == self@,
    {
        Table { rows: self.all() }
    }

    /// The number of rows.
    pub fn count_all(&self) -> (r: usize)
        ensures
            r == self@.len(),
    {
        self.rows.len()
    }

    /// The row with primary key `id`, or `NotFound`.
    pub fn find(&self, id: &R::Key) -> (r: Result<R, StoreError>)
        requires
            self.wf(),
        ensures
            match r {
                Ok(row) => has_key(self@, id@) && row == self@[key_index(self@, id@)]
                    && row.key() == id@,
                Err(e) => !has_key(self@, id@) && e == StoreError::NotFound,
            },
    {
        match self.position(id) {
            Some(i) => Ok(self.rows[i].copy_row()),
            None => Err(StoreError::NotFound),
        }
    }

    /// The row with primary key `id`, if there is one.
    pub fn find_optional(&self, id: &R::Key) -> (r: Option<R>)
        requires
            self.wf(),
        ensures
            match r {
                Some(row) => has_key(self@, id@) && row == self@[key_index(self@, id@)]
                    && row.key() == id@,
                None => !has_key(self@, id@),
            },
    {
        match self.position(id) {
            Some(i) => Some(self.rows[i].copy_row()),
            None => None,
        }
    }

    /// Whether a row with `row`'s primary key is stored.
    pub fn exists_row(&self, row: &R) -> (r: bool)
        ensures
            r == has_key(self@, row.key()),
    {
        let mut i: usize = 0;
        while i < self.rows.len()
            invariant
                i <= self.rows@.len(),
                forall|j: int| 0 <= j < i ==> #[trigger] self.rows@[j].key() != row.key(),
            decreases self.rows@.len() - i,
        {
            if self.rows[i].same_key(row) {
                return true;
            }
            i = i + 1;
        }
        false
    }

    /// Whether a row with primary key `id` is stored.
    pub fn exists_from_id(&self, id: &R::Key) -> (r: bool)
        requires
            self.wf(),
        ensures
            r == has_key(self@, id@),
    {
        self.position(id).is_some()
    }

    /// Inserts `row` as a new row; fails with `Constraint` when its primary key is taken.
    pub fn insert(&mut self, row: R) -> (r: Result<usize, StoreError>)
        requires
            old(self).wf(),
        ensures
            final(self).wf(),
            !has_key(old(self)@, row.key()) ==> r == Ok::<usize, StoreError>(1) && final(self)@
                == old(self)@.push(row),
            has_key(old(self)@, row.key()) ==> r == Err::<usize, StoreError>(
                StoreError::Constraint,
            ) && final(self)@ == old(self)@,
    {
        if self.exists_row(&row) {
            return Err(StoreError::Constraint);
        }
        proof {
            lemma_push_keeps_keys_unique(self@, row);
        }
        self.rows.push(row);
        Ok(1)
    }

    /// The position of the row that shares `row`'s primary key, if any.
    fn position_of_row(&self, row: &R) -> (r: Option<usize>)
        requires
            self.wf(),
        ensures
            match r {
                Some(i) => i < self@.len() && self@[i as int].key() == row.key() && has_key(
                    self@,
                    row.key(),
                ) && key_index(self@, row.key()) == i,
                None => !has_key(self@, row.key()),
            },
    {
        let mut i: usize = 0;
        while i < self.rows.len()
            invariant
                self.wf(),
                i <= self.rows@.len(),
                forall|j: int| 0 <= j < i ==> #[trigger] self.rows@[j].key() != row.key(),
            decreases self.rows@.len() - i,
        {
            if self.rows[i].same_key(row) {
                proof {
                    lemma_key_index(self@, i as int);
                }
                return Some(i);
            }
            i = i + 1;
        }
        None
    }

    /// Inserts copies of `entries` as a unit: either every row is added, in order, or,
    /// when some primary key is taken or repeated among them, none is and the result
    /// is `Constraint`.
    pub fn insert_list(&mut self, entries: &Vec<R>) -> (r: Result<usize, StoreError>)
        requires
            old(self).wf(),
        ensures
            final(self).wf(),
            can_append(old(self)@, entries@) ==> r == Ok::<usize, StoreError>(entries.len())
                && final(self)@ == old(self)@ + entries@,
            !can_append(old(self)@, entries@) ==> r == Err::<usize, StoreError>(
                StoreError::Constraint,
            ) && final(self)@ == old(self)@,
    {
        let n = entries.len();
        let mut i: usize = 0;
        while i < n
            invariant
                n == entries@.len(),
                i <= n,
                self.wf(),
                keys_unique(entries@.subrange(0, i as int)),
                forall|j: int| 0 <= j < i ==> !has_key(self@, #[trigger] entries@[j].key()),
            decreases n - i,
        {
            if self.exists_row(&entries[i]) {
                proof {
                    assert(!can_append(self@, entries@)) by {
                        assert(!has_key(self@, entries@[i as int].key()) == false);
                    }
                }
                return Err(StoreError::Constraint);
            }
            let mut j: usize = 0;
            while j < i
                invariant
                    n == entries@.len(),
                    self.wf(),
                    j <= i < n,
                    forall|m: int| 0 <= m < j ==> #[trigger] entries@[m].key() != entries@[i as int].key(),
                decreases i - j,
            {
                if entries[j].same_key(&entries[i]) {
                    proof {
                        assert(!keys_unique(entries@));
                    }
                    return Err(StoreError::Constraint);
                }
                j = j + 1;
            }
            i = i + 1;
            proof {
                let p = entries@.subrange(0, i as int);
                let q = entries@.subrange(0, i - 1);
                assert(q.len() == i - 1);
                assert forall|a: int, b: int|
                    0 <= a < p.len() && 0 <= b < p.len() && a != b implies #[trigger] p[a].key()
                    != #[trigger] p[b].key() by {
                    if a < i - 1 && b < i - 1 {
                        assert(p[a] == q[a] && p[b] == q[b]);
                    }
                }
            }
        }
        assert(entries@.subrange(0, n as int) =~= entries@);
        let ghost start = self@;
        let mut k: usize = 0;
        while k < n
            invariant
                n == entries@.len(),
                k <= n,
                can_append(start, entries@),
                self@ == start + entries@.subrange(0, k as int),
                keys_unique(self@),
                forall|x: KeyOf<R>|
                    has_key(self@, x) <==> has_key(start, x) || exists|m: int|
                        0 <= m < k && #[trigger] entries@[m].key() == x,
            decreases n - k,
        {
            let row = entries[k].copy_row();
            proof {
                assert(!has_key(self@, row.key())) by {
                    if has_key(self@, row.key()) {
                        if !has_key(start, row.key()) {
                            let m = choose|m: int| 0 <= m < k && #[trigger] entries@[m].key() == row.key();
                            assert(entries@[m].key() == entries@[k as int].key());
                        }
                    }
                }
                lemma_push_keeps_keys_unique(self@, row);
            }
            self.rows.push(row);
            k = k + 1;
            proof {
                assert(self@ =~= start + entries@.subrange(0, k as int));
                assert forall|x: KeyOf<R>|
                    has_key(self@, x) <==> has_key(start, x) || exists|m: int|
                        0 <= m < k && #[trigger] entries@[m].key() == x by {
                    if x == entries@[k - 1].key() {
                    }
                }
            }
        }
        assert(entries@.subrange(0, n as int) =~= entries@);
        Ok(n)
    }

    /// Replaces the row that has `row`'s primary key with `row`; fails with `NotFound`
    /// when there is none. Returns the stored row.
    pub fn update(&mut self, row: R) -> (r: Result<R, StoreError>)
        requires
            old(self).wf(),
        ensures
            final(self).wf(),
            has_key(old(self)@, row.key()) ==> r == Ok::<R, StoreError>(row) && final(self)@
                == old(self)@.update(key_index(old(self)@, row.key()), row),
            !has_key(old(self)@, row.key()) ==> r == Err::<R, StoreError>(StoreError::NotFound)
                && final(self)@ == old(self)@,
    {
        match self.position_of_row(&row) {
            None => Err(StoreError::NotFound),
            Some(i) => {
                let out = row.copy_row();
                proof {
                    lemma_upsert_keeps_keys_unique(self@, row);
                }
                self.rows.set(i, row);
                Ok(out)
            },
        }
    }

    /// Inserts `row`, or replaces the row that has its primary key: one step, which
    /// always succeeds and reports one row written.
    pub fn insert_or_update(&mut self, row: R) -> (r: usize)
        requires
            old(self).wf(),
        ensures
            final(self).wf(),
            final(self)@ == upserted(old(self)@, row),
            r == 1,
    {
        proof {
            lemma_upsert_keeps_keys_unique(self@, row);
        }
        match self.position_of_row(&row) {
            None => {
                self.rows.push(row);
            },
            Some(i) => {
                self.rows.set(i, row);
            },
        }
        1
    }

    /// Re-reads `row` from the table by its primary key, replacing it in place; fails
    /// with `NotFound`, leaving `row` as it was, when the row is gone.
    pub fn reload(&self, row: &mut R) -> (r: Result<(), StoreError>)
        requires
            self.wf(),
        ensures
            has_key(self@, old(row).key()) ==> r == Ok::<(), StoreError>(()) && *final(row)
                == self@[key_index(self@, old(row).key())],
            !has_key(self@, old(row).key()) ==> r == Err::<(), StoreError>(StoreError::NotFound)
                && *final(row) == *old(row),
    {
        match self.position_of_row(row) {
            None => Err(StoreError::NotFound),
            Some(i) => {
                *row = self.rows[i].copy_row();
                Ok(())
            },
        }
    }

    /// The stored row with `row`'s primary key, or `NotFound`.
    pub fn reload_new(&self, row: &R) -> (r: Result<R, StoreError>)
        requires
            self.wf(),
        ensures
            match r {
                Ok(found) => has_key(self@, row.key()) && found == self@[key_index(
                    self@,
                    row.key(),
                )] && found.key() == row.key(),
                Err(e) => !has_key(self@, row.key()) && e == StoreError::NotFound,
            },
    {
        match self.position_of_row(row) {
            None => Err(StoreError::NotFound),
            Some(i) => Ok(self.rows[i].copy_row()),
        }
    }

    /// Deletes the row with primary key `id`; returns how many rows went (0 or 1).
    pub fn delete_from_id(&mut self, id: &R::Key) -> (r: usize)
        requires
            old(self).wf(),
        ensures
            final(self).wf(),
            has_key(old(self)@, id@) ==> r == 1 && final(self)@ == old(self)@.remove(
                key_index(old(self)@, id@),
            ),
            !has_key(old(self)@, id@) ==> r == 0 && final(self)@ == old(self)@,
    {
        match self.position(id) {
            None => 0,
            Some(i) => {
                proof {
                    lemma_remove_keeps_keys_unique(self@, i as int);
                }
                self.rows.remove(i);
                1
            },
        }
    }

    /// Deletes the row with `row`'s primary key; returns how many rows went (0 or 1).
    pub fn delete(&mut self, row: &R) -> (r: usize)
        requires
            old(self).wf(),
        ensures
            final(self).wf(),
            has_key(old(self)@, row.key()) ==> r == 1 && final(self)@ == old(self)@.remove(
                key_index(old(self)@, row.key()),
            ),
            !has_key(old(self)@, row.key()) ==> r == 0 && final(self)@ == old(self)@,
    {
        match self.position_of_row(row) {
            None => 0,
            Some(i) => {
                proof {
                    lemma_remove_keeps_keys_unique(self@, i as int);
                }
                self.rows.remove(i);
                1
            },
        }
    }
}

/// The rows of `s` that refer to the parent with key `k`, in store order.
pub open spec fn children_of<P: Entity, C: BelongsTo<P>>(s: Seq<C>, k: KeyOf<P>) -> Seq<C> {
    s.filter(|c: C| c.parent_key() == Some(k))
}

/// The rows of `s` that do not refer to the parent with key `k`, in store order.
pub open spec fn not_children_of<P: Entity, C: BelongsTo<P>>(s: Seq<C>, k: KeyOf<P>) -> Seq<C> {
    s.filter(|c: C| c.parent_key() != Some(k))
}

impl<C: Entity> Table<C> {
    /// Deletes every row that refers to the parent with key `k`; returns how many went.
    pub fn delete_children<P: Entity>(&mut self, k: &P::Key) -> (r: usize) where C: BelongsTo<P>
        requires
            old(self).wf(),
        ensures
            final(self).wf(),
            final(self)@ == not_children_of::<P, C>(old(self)@, k@),
            r == old(self)@.len() - final(self)@.len(),
            r == children_of::<P, C>(old(self)@, k@).len(),
    {
        let ghost p = |c: C| c.parent_key() != Some(k@);
        let ghost q = |c: C| c.parent_key() == Some(k@);
        let mut kept: Vec<C> = Vec::new();
        let mut removed: usize = 0;
        let n = self.rows.len();
        let mut i: usize = 0;
        while i < n
            invariant
                n == self.rows@.len(),
                i <= n,
                p == (|c: C| c.parent_key() != Some(k@)),
                q == (|c: C| c.parent_key() == Some(k@)),
                kept@ == self.rows@.subrange(0, i as int).filter(p),
                removed as int == self.rows@.subrange(0, i as int).filter(q).len(),
                kept@.len() + removed == i,
            decreases n - i,
        {
            proof {
                lemma_filter_step(self.rows@, i as int, p);
                lemma_filter_step(self.rows@, i as int, q);
            }
            if self.rows[i].refers_to(k) {
                removed = removed + 1;
            } else {
                kept.push(self.rows[i].copy_row());
            }
            i = i + 1;
        }
        proof {
            assert(self.rows@.subrange(0, n as int) =~= self.rows@);
            lemma_filter_keys_unique(self@, p);
        }
        self.rows = kept;
        removed
    }
}

impl<R: Entity + Ordered> Table<R> {
    /// Every row, listed in the entity's order.
    pub fn all_ordered(&self) -> (r: Vec<R>)
        ensures
            sorted(r@),
            r@.to_multiset() == self@.to_multiset(),
    {
        sort_rows(self.all())
    }
}

impl<R: IntKeyed> Table<R> {
    /// Inserts the row that `c` describes under the key that the store generates for
    /// it (`next_key`), and returns that row; fails with `Store`, changing nothing, when
    /// the key would not fit.
    pub fn insert_with_generated_key<C: Constructor<R>>(&mut self, c: &C) -> (r: Result<R, StoreError>)
        requires
            old(self).wf(),
        ensures
            final(self).wf(),
            next_key(old(self)@) <= i32::MAX ==> match r {
                Ok(row) => c.fills(row) && row.key() as int == next_key(old(self)@)
                    && final(self)@ == old(self)@.push(row),
                Err(_) => false,
            },
            next_key(old(self)@) > i32::MAX ==> r == Err::<R, StoreError>(StoreError::Store)
                && final(self)@ == old(self)@,
    {
        let n = self.rows.len();
        if n == 0 {
            let row = c.build(1);
            self.rows.push(row);
            proof {
                assert(keys_unique(self@));
                assert(self@ =~= old(self)@.push(self@[0]));
            }
            let out = self.rows[0].copy_row();
            return Ok(out);
        }
        let mut m: i32 = self.rows[0].int_key();
        let mut i: usize = 1;
        while i < n
            invariant
                n == self.rows@.len(),
                1 <= i <= n,
                m as int == max_key(self@.subrange(0, i as int)),
            decreases n - i,
        {
            let k = self.rows[i].int_key();
            proof {
                assert(self@.subrange(0, i + 1).drop_last() =~= self@.subrange(0, i as int));
            }
            if k > m {
                m = k;
            }
            i = i + 1;
        }
        proof {
            assert(self@.subrange(0, n as int) =~= self@);
            lemma_max_key(self@);
        }
        if m == i32::MAX {
            return Err(StoreError::Store);
        }
        let row = c.build(m + 1);
        proof {
            assert(!has_key(self@, row.key())) by {
                if has_key(self@, row.key()) {
                    let j = choose|j: int| 0 <= j < self@.len() && #[trigger] self@[j].key() == row.key();
                    assert(self@[j].key() as int <= max_key(self@));
                }
            }
            lemma_push_keeps_keys_unique(self@, row);
        }
        self.rows.push(row);
        let out = self.rows[n].copy_row();
        Ok(out)
    }
}

} // verus!
