use vstd::prelude::*;

use crate::entity::{BelongsTo, Entity, ManyToManyConstructor, StoreError};
use crate::ordering::{sort_rows, sorted, Ordered};
use crate::table::{
    children_of, has_key, key_index, keys_unique, lemma_filter_step, lemma_remove_keeps_keys_unique,
    not_children_of, KeyOf, Table,
};

verus! {

// ---------------------------------------------------------------------------
// Belongs-to: child to parent
// ---------------------------------------------------------------------------

/// The parent row that `child` refers to, if its foreign key is set and that row exists.
pub open spec fn parent_of<P: Entity, C: BelongsTo<P>>(parents: Seq<P>, child: C) -> Option<P> {
    match child.parent_key() {
        None => None,
        Some(k) => if has_key(parents, k) {
            Some(parents[key_index(parents, k)])
        } else {
            None
        },
    }
}

/// What the strict form of belongs-to gives: no parent (`Ok(None)`) when the foreign
/// key is not set, the parent row when it exists, and `NotFound` when the key names a
/// row that does not exist.
pub open spec fn parent_strict<P: Entity, C: BelongsTo<P>>(parents: Seq<P>, child: C) -> Result<
    Option<P>,
    StoreError,
> {
    match child.parent_key() {
        None => Ok(None),
        Some(k) => if has_key(parents, k) {
            Ok(Some(parents[key_index(parents, k)]))
        } else {
            Err(StoreError::NotFound)
        },
    }
}

/// The parent of `child` (strict form): `Ok(None)` when the foreign key is not set,
/// `NotFound` when it names a row that does not exist.
pub fn get_parent<P: Entity, C: BelongsTo<P>>(child: &C, parents: &Table<P>) -> (r: Result<
    Option<P>,
    StoreError,
>)
    requires
        parents.wf(),
    ensures
        r == parent_strict(parents@, *child),
{
    match child.foreign_key() {
        None => Ok(None),
        Some(k) => match parents.find(k) {
            Ok(p) => Ok(Some(p)),
            Err(e) => Err(e),
        },
    }
}

/// The parent of `child` (optional form): `None` when the foreign key is not set or
/// when it names a row that does not exist.
pub fn get_parent_optional<P: Entity, C: BelongsTo<P>>(child: &C, parents: &Table<P>) -> (r:
    Option<P>)
    requires
        parents.wf(),
    ensures
        r == parent_of(parents@, *child),
{
    match child.foreign_key() {
        None => None,
        Some(k) => parents.find_optional(k),
    }
}

/// The two forms of belongs-to keep "no parent configured" apart from "parent missing":
/// for a child whose foreign key is not set both give no parent (the strict form
/// `Ok(None)`, the optional form `None`); for a child whose parent was deleted the strict
/// form fails with `NotFound` while the optional form gives `None`.
pub proof fn lemma_belongs_to_without_parent<P: Entity, C: BelongsTo<P>>(
    parents: Seq<P>,
    child: C,
)
    requires
        keys_unique(parents),
    ensures
        child.parent_key() is None ==> parent_strict(parents, child) == Ok::<Option<P>, StoreError>(
            None,
        ) && parent_of(parents, child) is None,
        forall|k: KeyOf<P>|
            child.parent_key() == Some(k) && has_key(parents, k) ==> parent_strict(
                parents.remove(key_index(parents, k)),
                child,
            ) == Err::<Option<P>, StoreError>(StoreError::NotFound) && (#[trigger] parent_of(
                parents.remove(key_index(parents, k)),
                child,
            )) is None,
{
    assert forall|k: KeyOf<P>|
        child.parent_key() == Some(k) && has_key(parents, k) implies parent_strict(
        parents.remove(key_index(parents, k)),
        child,
    ) == Err::<Option<P>, StoreError>(StoreError::NotFound) && (#[trigger] parent_of(
        parents.remove(key_index(parents, k)),
        child,
    )) is None by {
        let i = key_index(parents, k);
        assert(parents[i].key() == k);
        lemma_remove_keeps_keys_unique(parents, i);
    }
}

// ---------------------------------------------------------------------------
// Has-one / has-zero-or-one: parent to its single child
// ---------------------------------------------------------------------------

/// The position of the first row of `children` that refers to `parent`, if any.
fn first_child<P: Entity, C: BelongsTo<P>>(children: &Table<C>, parent: &P::Key) -> (r: Option<
    usize,
>)
    ensures
        match r {
            Some(i) => i < children@.len() && children_of::<P, C>(children@, parent@).len() > 0
                && children_of::<P, C>(children@, parent@)[0] == children@[i as int],
            None => children_of::<P, C>(children@, parent@).len() == 0,
        },
{
    let ghost q = |c: C| c.parent_key() == Some(parent@);
    let n = children.count_all();
    let mut i: usize = 0;
    while i < n
        invariant
            n == children@.len(),
            i <= n,
            q == (|c: C| c.parent_key() == Some(parent@)),
            children@.subrange(0, i as int).filter(q).len() == 0,
        decreases n - i,
    {
        proof {
            lemma_filter_step(children@, i as int, q);
        }
        if children.get(i).refers_to(parent) {
            proof {
                let s = children@;
                let head = s.subrange(0, i + 1);
                let tail = s.subrange(i + 1, s.len() as int);
                assert(s =~= head + tail);
                Seq::filter_distributes_over_add(head, tail, q);
                assert(head.filter(q) =~= seq![s[i as int]]);
            }
            return Some(i);
        }
        i = i + 1;
    }
    proof {
        assert(children@.subrange(0, n as int) =~= children@);
    }
    None
}

/// The child of `parent` (has-one): the first, in store order, of the rows that refer to
/// it; `NotFound` when there is none.
pub fn get_one<P: Entity, C: BelongsTo<P>>(children: &Table<C>, parent: &P::Key) -> (r: Result<
    C,
    StoreError,
>)
    ensures
        children_of::<P, C>(children@, parent@).len() > 0 ==> r == Ok::<C, StoreError>(
            children_of::<P, C>(children@, parent@)[0],
        ),
        children_of::<P, C>(children@, parent@).len() == 0 ==> r == Err::<C, StoreError>(
            StoreError::NotFound,
        ),
{
    match first_child(children, parent) {
        Some(i) => Ok(children.get(i).copy_row()),
        None => Err(StoreError::NotFound),
    }
}

/// The child of `parent` (has-zero-or-one): the first, in store order, of the rows that
/// refer to it, if any.
pub fn get_zero_or_one<P: Entity, C: BelongsTo<P>>(children: &Table<C>, parent: &P::Key) -> (r:
    Option<C>)
    ensures
        children_of::<P, C>(children@, parent@).len() > 0 ==> r == Some(
            children_of::<P, C>(children@, parent@)[0],
        ),
        children_of::<P, C>(children@, parent@).len() == 0 ==> r is None,
{
    match first_child(children, parent) {
        Some(i) => Some(children.get(i).copy_row()),
        None => None,
    }
}

/// Deletes the child of `parent` (has-one): every row that refers to it goes, and the
/// first of them is returned; `NotFound`, with nothing deleted, when there is none.
pub fn delete_one<P: Entity, C: BelongsTo<P>>(children: &mut Table<C>, parent: &P::Key) -> (r:
    Result<C, StoreError>)
    requires
        old(children).wf(),
    ensures
        final(children).wf(),
        children_of::<P, C>(old(children)@, parent@).len() > 0 ==> r == Ok::<C, StoreError>(
            children_of::<P, C>(old(children)@, parent@)[0],
        ) && final(children)@ == not_children_of::<P, C>(old(children)@, parent@),
        children_of::<P, C>(old(children)@, parent@).len() == 0 ==> r == Err::<C, StoreError>(
            StoreError::NotFound,
        ) && final(children)@ == old(children)@,
{
    match get_zero_or_one(children, parent) {
        None => Err(StoreError::NotFound),
        Some(c) => {
            children.delete_children(parent);
            Ok(c)
        },
    }
}

/// Deletes the child of `parent` (has-zero-or-one): every row that refers to it goes,
/// and the first of them is returned, if any.
pub fn delete_zero_or_one<P: Entity, C: BelongsTo<P>>(
    children: &mut Table<C>,
    parent: &P::Key,
) -> (r: Option<C>)
    requires
        old(children).wf(),
    ensures
        final(children).wf(),
        children_of::<P, C>(old(children)@, parent@).len() > 0 ==> r == Some(
            children_of::<P, C>(old(children)@, parent@)[0],
        ) && final(children)@ == not_children_of::<P, C>(old(children)@, parent@),
        children_of::<P, C>(old(children)@, parent@).len() == 0 ==> r is None && final(children)@ == old(children)@,
{
    match get_zero_or_one(children, parent) {
        None => None,
        Some(c) => {
            children.delete_children(parent);
            Some(c)
        },
    }
}

// ---------------------------------------------------------------------------
// Has-many: parent to its children through a foreign key
// ---------------------------------------------------------------------------

/// Every row of `children` that refers to `parent`, in store order.
pub fn get_children<P: Entity, C: BelongsTo<P>>(children: &Table<C>, parent: &P::Key) -> (r: Vec<
    C,
>)
    ensures
        r@ == children_of::<P, C>(children@, parent@),
{
    let ghost q = |c: C| c.parent_key() == Some(parent@);
    let mut out: Vec<C> = Vec::new();
    let n = children.count_all();
    let mut i: usize = 0;
    while i < n
        invariant
            n == children@.len(),
            i <= n,
            q == (|c: C| c.parent_key() == Some(parent@)),
            out@ == children@.subrange(0, i as int).filter(q),
        decreases n - i,
    {
        proof {
            lemma_filter_step(children@, i as int, q);
        }
        let c = children.get(i);
        if c.refers_to(parent) {
            out.push(c.copy_row());
        }
        i = i + 1;
    }
    proof {
        assert(children@.subrange(0, n as int) =~= children@);
    }
    out
}

/// Every row of `children` that refers to `parent`, listed in the children's order.
pub fn get_children_ordered<P: Entity, C: BelongsTo<P> + Ordered>(
    children: &Table<C>,
    parent: &P::Key,
) -> (r: Vec<C>)
    ensures
        sorted(r@),
        r@.to_multiset() == children_of::<P, C>(children@, parent@).to_multiset(),
{
    sort_rows(get_children::<P, C>(children, parent))
}

/// How many rows of `children` refer to `parent`.
pub fn count_children<P: Entity, C: BelongsTo<P>>(children: &Table<C>, parent: &P::Key) -> (r:
    usize)
    ensures
        r == children_of::<P, C>(children@, parent@).len(),
{
    let ghost q = |c: C| c.parent_key() == Some(parent@);
    let mut count: usize = 0;
    let n = children.count_all();
    let mut i: usize = 0;
    while i < n
        invariant
            n == children@.len(),
            i <= n,
            q == (|c: C| c.parent_key() == Some(parent@)),
            count == children@.subrange(0, i as int).filter(q).len(),
            count <= i,
        decreases n - i,
    {
        proof {
            lemma_filter_step(children@, i as int, q);
        }
        if children.get(i).refers_to(parent) {
            count = count + 1;
        }
        i = i + 1;
    }
    proof {
        assert(children@.subrange(0, n as int) =~= children@);
    }
    count
}

/// Deletes every row of `children` that refers to `parent`; returns how many went.
pub fn delete_all_children<P: Entity, C: BelongsTo<P>>(
    children: &mut Table<C>,
    parent: &P::Key,
) -> (r: usize)
    requires
        old(children).wf(),
    ensures
        final(children).wf(),
        final(children)@ == not_children_of::<P, C>(old(children)@, parent@),
        r == children_of::<P, C>(old(children)@, parent@).len(),
{
    children.delete_children(parent)
}

// ---------------------------------------------------------------------------
// Has-many-through: anchor to related rows through a join entity
// ---------------------------------------------------------------------------

/// The related rows of anchor `a`: for each join row of `links` (in store order) that
/// links `a` to a key that `related` holds, that related row (an inner join).
pub open spec fn related_of<A: Entity, B: Entity, J: BelongsTo<A> + BelongsTo<B>>(
    links: Seq<J>,
    related: Seq<B>,
    a: KeyOf<A>,
) -> Seq<B>
    decreases links.len(),
{
    if links.len() == 0 {
        Seq::empty()
    } else {
        let prev = related_of::<A, B, J>(links.drop_last(), related, a);
        let l = links.last();
        match (<J as BelongsTo<A>>::parent_key(&l), <J as BelongsTo<B>>::parent_key(&l)) {
            (Some(x), Some(b)) => if x == a && has_key(related, b) {
                prev.push(related[key_index(related, b)])
            } else {
                prev
            },
            _ => prev,
        }
    }
}

/// The join rows `new` are the plain links from `a` to each key of `ids`, in order.
pub open spec fn links_to<A: Entity, B: Entity, J: ManyToManyConstructor<A, B>>(
    new: Seq<J>,
    a: KeyOf<A>,
    ids: Seq<KeyOf<B>>,
) -> bool {
    &&& new.len() == ids.len()
    &&& forall|i: int|
        0 <= i < new.len() ==> (#[trigger] new[i]).is_link(a, ids[i]) && <J as BelongsTo<
            A,
        >>::parent_key(&new[i]) == Some(a) && <J as BelongsTo<B>>::parent_key(&new[i]) == Some(
            ids[i],
        )
}

/// `after` is `before` with every join row of anchor `a` replaced by the plain links from
/// `a` to `ids`: the other rows keep their order, and the new links follow them.
pub open spec fn relinked<A: Entity, B: Entity, J: ManyToManyConstructor<A, B>>(
    before: Seq<J>,
    after: Seq<J>,
    a: KeyOf<A>,
    ids: Seq<KeyOf<B>>,
) -> bool {
    let kept = not_children_of::<A, J>(before, a);
    &&& after.len() == kept.len() + ids.len()
    &&& after.subrange(0, kept.len() as int) == kept
    &&& links_to::<A, B, J>(after.subrange(kept.len() as int, after.len() as int), a, ids)
}

/// The mathematical values of executable keys.
pub open spec fn key_views<K: View>(ids: Seq<K>) -> Seq<K::V> {
    ids.map_values(|k: K| k@)
}

/// The primary keys of `rows`, in order.
pub open spec fn row_keys<B: Entity>(rows: Seq<B>) -> Seq<KeyOf<B>> {
    rows.map_values(|b: B| b.key())
}

/// The keys of `ids` are pairwise distinct.
pub open spec fn distinct_keys<K>(ids: Seq<K>) -> bool {
    forall|i: int, j: int| 0 <= i < ids.len() && 0 <= j < ids.len() && i != j ==> ids[i] != ids[j]
}

/// Linking anchor `a` to `ids` meets the store's constraints: the anchor exists (when
/// there is anything to link), every id names a related row, and no id is repeated.
pub open spec fn can_link<A: Entity, B: Entity>(
    anchors: Seq<A>,
    related: Seq<B>,
    a: KeyOf<A>,
    ids: Seq<KeyOf<B>>,
) -> bool {
    &&& ids.len() > 0 ==> has_key(anchors, a)
    &&& forall|i: int| 0 <= i < ids.len() ==> has_key(related, #[trigger] ids[i])
    &&& distinct_keys(ids)
}

/// The related rows that the keys `ids` name, in the order of `ids`.
pub open spec fn rows_named<B: Entity>(related: Seq<B>, ids: Seq<KeyOf<B>>) -> Seq<B> {
    Seq::new(ids.len(), |i: int| related[key_index(related, ids[i])])
}

/// The inner join over two runs of join rows is the join over each, one after the other.
pub proof fn lemma_related_of_append<A: Entity, B: Entity, J: BelongsTo<A> + BelongsTo<B>>(
    x: Seq<J>,
    y: Seq<J>,
    related: Seq<B>,
    a: KeyOf<A>,
)
    ensures
        related_of::<A, B, J>(x + y, related, a) == related_of::<A, B, J>(x, related, a)
            + related_of::<A, B, J>(y, related, a),
    decreases y.len(),
{
    if y.len() == 0 {
        assert(x + y =~= x);
        assert(related_of::<A, B, J>(x, related, a) + Seq::<B>::empty() =~= related_of::<A, B, J>(
            x,
            related,
            a,
        ));
    } else {
        assert((x + y).drop_last() =~= x + y.drop_last());
        assert((x + y).last() == y.last());
        lemma_related_of_append::<A, B, J>(x, y.drop_last(), related, a);
        let px = related_of::<A, B, J>(x, related, a);
        let py = related_of::<A, B, J>(y.drop_last(), related, a);
        let l = y.last();
        match (<J as BelongsTo<A>>::parent_key(&l), <J as BelongsTo<B>>::parent_key(&l)) {
            (Some(xa), Some(b)) => {
                if xa == a && has_key(related, b) {
                    assert((px + py).push(related[key_index(related, b)]) =~= px + py.push(
                        related[key_index(related, b)],
                    ));
                }
            },
            _ => {},
        }
    }
}

/// Join rows none of which belongs to anchor `a` give `a` no related rows.
pub proof fn lemma_related_of_other_anchors<A: Entity, B: Entity, J: BelongsTo<A> + BelongsTo<B>>(
    links: Seq<J>,
    related: Seq<B>,
    a: KeyOf<A>,
)
    requires
        forall|i: int|
            0 <= i < links.len() ==> <J as BelongsTo<A>>::parent_key(&#[trigger] links[i]) != Some(
                a,
            ),
    ensures
        related_of::<A, B, J>(links, related, a) == Seq::<B>::empty(),
    decreases links.len(),
{
    if links.len() > 0 {
        let d = links.drop_last();
        assert forall|i: int| 0 <= i < d.len() implies <J as BelongsTo<A>>::parent_key(
            &#[trigger] d[i],
        ) != Some(a) by {
            assert(d[i] == links[i]);
        }
        lemma_related_of_other_anchors::<A, B, J>(d, related, a);
        assert(<J as BelongsTo<A>>::parent_key(&links[links.len() - 1]) != Some(a));
    }
}

/// Plain links from `a` to keys that all exist give exactly the rows those keys name.
pub proof fn lemma_related_of_links<A: Entity, B: Entity, J: ManyToManyConstructor<A, B>>(
    new: Seq<J>,
    related: Seq<B>,
    a: KeyOf<A>,
    ids: Seq<KeyOf<B>>,
)
    requires
        links_to::<A, B, J>(new, a, ids),
        forall|i: int| 0 <= i < ids.len() ==> has_key(related, #[trigger] ids[i]),
    ensures
        related_of::<A, B, J>(new, related, a) == rows_named(related, ids),
    decreases new.len(),
{
    if new.len() > 0 {
        let n = new.len() - 1;
        let dn = new.drop_last();
        let di = ids.drop_last();
        assert forall|i: int| 0 <= i < dn.len() implies (#[trigger] dn[i]).is_link(a, di[i])
            && <J as BelongsTo<A>>::parent_key(&dn[i]) == Some(a) && <J as BelongsTo<
            B,
        >>::parent_key(&dn[i]) == Some(di[i]) by {
            assert(dn[i] == new[i] && di[i] == ids[i]);
        }
        assert forall|i: int| 0 <= i < di.len() implies has_key(related, #[trigger] di[i]) by {
            assert(di[i] == ids[i]);
        }
        lemma_related_of_links::<A, B, J>(dn, related, a, di);
        assert(new[n].is_link(a, ids[n]));
        assert(has_key(related, ids[n]));
        assert(rows_named(related, di).push(related[key_index(related, ids[n])]) =~= rows_named(
            related,
            ids,
        ));
    }
}

/// Reconciliation is exact: once the join rows of anchor `a` have been replaced by links
/// to `ids` (keys that all exist), the related rows of `a` are exactly the rows that
/// `ids` name, and every join row of `a` pairs it with one of `ids`.
pub proof fn lemma_set_related_exact<A: Entity, B: Entity, J: ManyToManyConstructor<A, B>>(
    before: Seq<J>,
    after: Seq<J>,
    related: Seq<B>,
    a: KeyOf<A>,
    ids: Seq<KeyOf<B>>,
)
    requires
        relinked::<A, B, J>(before, after, a, ids),
        forall|i: int| 0 <= i < ids.len() ==> has_key(related, #[trigger] ids[i]),
    ensures
        related_of::<A, B, J>(after, related, a) == rows_named(related, ids),
        forall|l: J|
            after.contains(l) && <J as BelongsTo<A>>::parent_key(&l) == Some(a) ==> exists|i: int|
                0 <= i < ids.len() && #[trigger] <J as BelongsTo<B>>::parent_key(&l) == Some(
                    ids[i],
                ),
        not_children_of::<A, J>(after, a) == not_children_of::<A, J>(before, a),
{
    let kept = not_children_of::<A, J>(before, a);
    let p = |l: J| <J as BelongsTo<A>>::parent_key(&l) != Some(a);
    let new = after.subrange(kept.len() as int, after.len() as int);
    assert(after =~= kept + new);
    assert forall|i: int| 0 <= i < kept.len() implies <J as BelongsTo<A>>::parent_key(
        &#[trigger] kept[i],
    ) != Some(a) by {
        before.lemma_filter_pred(p, i);
    }
    lemma_related_of_append::<A, B, J>(kept, new, related, a);
    lemma_related_of_other_anchors::<A, B, J>(kept, related, a);
    lemma_related_of_links::<A, B, J>(new, related, a, ids);
    assert(Seq::<B>::empty() + rows_named(related, ids) =~= rows_named(related, ids));
    assert forall|l: J|
        after.contains(l) && <J as BelongsTo<A>>::parent_key(&l) == Some(a) implies exists|i: int|
        0 <= i < ids.len() && #[trigger] <J as BelongsTo<B>>::parent_key(&l) == Some(ids[i]) by {
        let m = choose|m: int| 0 <= m < after.len() && after[m] == l;
        if m < kept.len() {
            assert(kept[m] == l);
        } else {
            assert(new[m - kept.len()] == l);
        }
    }
    Seq::filter_distributes_over_add(kept, new, p);
    reveal(Seq::filter);
    lemma_filter_all(kept, p);
    lemma_filter_none(new, p);
    assert(kept.filter(p) + new.filter(p) =~= kept);
    lemma_filter_idempotent(before, p);
}

/// Filtering a sequence whose items all pass changes nothing.
proof fn lemma_filter_all<T>(s: Seq<T>, p: spec_fn(T) -> bool)
    requires
        forall|i: int| 0 <= i < s.len() ==> p(#[trigger] s[i]),
    ensures
        s.filter(p) == s,
    decreases s.len(),
{
    reveal(Seq::filter);
    if s.len() > 0 {
        let d = s.drop_last();
        assert forall|i: int| 0 <= i < d.len() implies p(#[trigger] d[i]) by {
            assert(d[i] == s[i]);
        }
        lemma_filter_all(d, p);
        assert(p(s[s.len() - 1]));
        assert(d.push(s.last()) =~= s);
    }
}

/// Filtering a sequence none of whose items pass leaves nothing.
proof fn lemma_filter_none<T>(s: Seq<T>, p: spec_fn(T) -> bool)
    requires
        forall|i: int| 0 <= i < s.len() ==> !p(#[trigger] s[i]),
    ensures
        s.filter(p) == Seq::<T>::empty(),
    decreases s.len(),
{
    reveal(Seq::filter);
    if s.len() > 0 {
        let d = s.drop_last();
        assert forall|i: int| 0 <= i < d.len() implies !p(#[trigger] d[i]) by {
            assert(d[i] == s[i]);
        }
        lemma_filter_none(d, p);
        assert(!p(s[s.len() - 1]));
    }
}

/// Filtering twice by the same predicate is filtering once.
proof fn lemma_filter_idempotent<T>(s: Seq<T>, p: spec_fn(T) -> bool)
    ensures
        s.filter(p).filter(p) == s.filter(p),
{
    let f = s.filter(p);
    assert forall|i: int| 0 <= i < f.len() implies p(#[trigger] f[i]) by {
        s.lemma_filter_pred(p, i);
    }
    lemma_filter_all(f, p);
}

/// The related rows of `anchor`: an inner join of the join table with the related
/// table, in the store order of the join rows.
pub fn get_related<A: Entity, B: Entity, J: BelongsTo<A> + BelongsTo<B>>(
    links: &Table<J>,
    related: &Table<B>,
    anchor: &A::Key,
) -> (r: Vec<B>)
    requires
        related.wf(),
    ensures
        r@ == related_of::<A, B, J>(links@, related@, anchor@),
{
    let mut out: Vec<B> = Vec::new();
    let n = links.count_all();
    let mut i: usize = 0;
    while i < n
        invariant
            related.wf(),
            n == links@.len(),
            i <= n,
            out@ == related_of::<A, B, J>(links@.subrange(0, i as int), related@, anchor@),
        decreases n - i,
    {
        proof {
            assert(links@.subrange(0, i + 1).drop_last() =~= links@.subrange(0, i as int));
        }
        let l = links.get(i);
        if <J as BelongsTo<A>>::refers_to(l, anchor) {
            match <J as BelongsTo<B>>::foreign_key(l) {
                Some(kb) => match related.find_optional(kb) {
                    Some(b) => {
                        out.push(b);
                    },
                    None => {},
                },
                None => {},
            }
        }
        i = i + 1;
    }
    proof {
        assert(links@.subrange(0, n as int) =~= links@);
    }
    out
}

/// The related rows of `anchor`, listed in the related entity's order.
pub fn get_related_ordered<A: Entity, B: Entity + Ordered, J: BelongsTo<A> + BelongsTo<B>>(
    links: &Table<J>,
    related: &Table<B>,
    anchor: &A::Key,
) -> (r: Vec<B>)
    requires
        related.wf(),
    ensures
        sorted(r@),
        r@.to_multiset() == related_of::<A, B, J>(links@, related@, anchor@).to_multiset(),
{
    sort_rows(get_related::<A, B, J>(links, related, anchor))
}

/// How many related rows `anchor` has (the length of `get_related`).
pub fn count_related<A: Entity, B: Entity, J: BelongsTo<A> + BelongsTo<B>>(
    links: &Table<J>,
    related: &Table<B>,
    anchor: &A::Key,
) -> (r: usize)
    requires
        related.wf(),
    ensures
        r == related_of::<A, B, J>(links@, related@, anchor@).len(),
{
    let mut count: usize = 0;
    let n = links.count_all();
    let mut i: usize = 0;
    while i < n
        invariant
            related.wf(),
            n == links@.len(),
            i <= n,
            count == related_of::<A, B, J>(links@.subrange(0, i as int), related@, anchor@).len(),
            count <= i,
        decreases n - i,
    {
        proof {
            assert(links@.subrange(0, i + 1).drop_last() =~= links@.subrange(0, i as int));
        }
        let l = links.get(i);
        if <J as BelongsTo<A>>::refers_to(l, anchor) {
            match <J as BelongsTo<B>>::foreign_key(l) {
                Some(kb) => {
                    if related.exists_from_id(kb) {
                        count = count + 1;
                    }
                },
                None => {},
            }
        }
        i = i + 1;
    }
    proof {
        assert(links@.subrange(0, n as int) =~= links@);
    }
    count
}

/// Deletes every join row of `anchor`; the related rows themselves are not touched.
/// Returns how many join rows went.
pub fn remove_all_links<A: Entity, J: BelongsTo<A>>(links: &mut Table<J>, anchor: &A::Key) -> (r:
    usize)
    requires
        old(links).wf(),
    ensures
        final(links).wf(),
        final(links)@ == not_children_of::<A, J>(old(links)@, anchor@),
        r == children_of::<A, J>(old(links)@, anchor@).len(),
{
    links.delete_children(anchor)
}

/// Detaching is cascade-free: after the join rows of `a` are gone, `a` has no related
/// rows, while the related table (which detaching does not take) still holds every row,
/// each found by its own key.
pub proof fn lemma_remove_all_links_detaches<A: Entity, B: Entity, J: BelongsTo<A> + BelongsTo<B>>(
    links: Seq<J>,
    related: Seq<B>,
    a: KeyOf<A>,
)
    requires
        keys_unique(related),
    ensures
        related_of::<A, B, J>(not_children_of::<A, J>(links, a), related, a) == Seq::<B>::empty(),
        forall|i: int|
            0 <= i < related.len() ==> has_key(related, #[trigger] related[i].key()) && related[key_index(
                related,
                related[i].key(),
            )] == related[i],
{
    let p = |l: J| <J as BelongsTo<A>>::parent_key(&l) != Some(a);
    let kept = links.filter(p);
    assert forall|i: int| 0 <= i < kept.len() implies <J as BelongsTo<A>>::parent_key(
        &#[trigger] kept[i],
    ) != Some(a) by {
        links.lemma_filter_pred(p, i);
    }
    lemma_related_of_other_anchors::<A, B, J>(kept, related, a);
    assert forall|i: int| 0 <= i < related.len() implies has_key(
        related,
        #[trigger] related[i].key(),
    ) && related[key_index(related, related[i].key())] == related[i] by {
        crate::table::lemma_key_index(related, i);
    }
}

/// Replaces the related set of `anchor` with the rows named by `ids`, as one transaction:
/// every join row of `anchor` is deleted and one plain link is inserted per id. When the
/// links would break a constraint (the anchor is missing, an id names no row, an id is
/// repeated) the call fails with `Constraint` and the join table is left as it was.
/// Returns the number of links written.
pub fn set_related_ids<A: Entity, B: Entity, J: ManyToManyConstructor<A, B>>(
    links: &mut Table<J>,
    anchors: &Table<A>,
    related: &Table<B>,
    anchor: &A::Key,
    ids: &Vec<B::Key>,
) -> (r: Result<usize, StoreError>)
    requires
        old(links).wf(),
        anchors.wf(),
        related.wf(),
    ensures
        final(links).wf(),
        can_link(anchors@, related@, anchor@, key_views(ids@)) ==> r == Ok::<
            usize,
            StoreError,
        >(ids.len()) && relinked::<A, B, J>(
            old(links)@,
            final(links)@,
            anchor@,
            key_views(ids@),
        ),
        !can_link(anchors@, related@, anchor@, key_views(ids@)) ==> r == Err::<
            usize,
            StoreError,
        >(StoreError::Constraint) && final(links)@ == old(links)@,
{
    let ghost idv = key_views(ids@);
    let n = ids.len();
    if n > 0 && !anchors.exists_from_id(anchor) {
        return Err(StoreError::Constraint);
    }
    let mut i: usize = 0;
    while i < n
        invariant
            related.wf(),
            links.wf(),
            links@ == old(links)@,
            n == ids@.len(),
            idv == key_views(ids@),
            i <= n,
            forall|j: int| 0 <= j < i ==> has_key(related@, #[trigger] idv[j]),
        decreases n - i,
    {
        if !related.exists_from_id(&ids[i]) {
            proof {
                assert(idv[i as int] == ids@[i as int]@);
            }
            return Err(StoreError::Constraint);
        }
        i = i + 1;
    }
    let mut new_links: Vec<J> = Vec::new();
    let mut k: usize = 0;
    while k < n
        invariant
            links.wf(),
            links@ == old(links)@,
            n == ids@.len(),
            idv == key_views(ids@),
            forall|j: int| 0 <= j < n ==> has_key(related@, #[trigger] idv[j]),
            n > 0 ==> has_key(anchors@, anchor@),
            k <= n,
            links_to::<A, B, J>(new_links@, anchor@, idv.subrange(0, k as int)),
        decreases n - k,
    {
        let l = <J as ManyToManyConstructor<A, B>>::new(anchor, &ids[k]);
        new_links.push(l);
        k = k + 1;
        proof {
            let sub = idv.subrange(0, k as int);
            assert forall|j: int| 0 <= j < new_links@.len() implies (#[trigger] new_links@[j]).is_link(
                anchor@,
                sub[j],
            ) && <J as BelongsTo<A>>::parent_key(&new_links@[j]) == Some(anchor@) && <J as BelongsTo<
                B,
            >>::parent_key(&new_links@[j]) == Some(sub[j]) by {
                if j < k - 1 {
                    assert(idv.subrange(0, k - 1)[j] == sub[j]);
                }
            }
        }
    }
    proof {
        assert(idv.subrange(0, n as int) =~= idv);
    }
    let mut scratch = links.snapshot();
    remove_all_links::<A, J>(&mut scratch, anchor);
    let ghost kept = scratch@;
    proof {
        let p = |l: J| <J as BelongsTo<A>>::parent_key(&l) != Some(anchor@);
        assert forall|m: int| 0 <= m < kept.len() implies <J as BelongsTo<A>>::parent_key(
            &#[trigger] kept[m],
        ) != Some(anchor@) by {
            old(links)@.lemma_filter_pred(p, m);
        }
        // A new link and a kept row never share a key: they differ in the anchor.
        assert forall|m: int| 0 <= m < new_links@.len() implies !has_key(
            kept,
            #[trigger] new_links@[m].key(),
        ) by {
            if has_key(kept, new_links@[m].key()) {
                let x = choose|x: int| 0 <= x < kept.len() && #[trigger] kept[x].key()
                    == new_links@[m].key();
                J::lemma_key_is_pair(kept[x], new_links@[m]);
            }
        }
        // New links share a key exactly when their ids repeat.
        assert forall|x: int, y: int|
            0 <= x < new_links@.len() && 0 <= y < new_links@.len() implies (
            #[trigger] new_links@[x].key() == #[trigger] new_links@[y].key()) == (idv[x]
            == idv[y]) by {
            J::lemma_key_is_pair(new_links@[x], new_links@[y]);
        }
    }
    match scratch.insert_list(&new_links) {
        Ok(written) => {
            *links = scratch;
            proof {
                assert forall|x: int, y: int|
                    0 <= x < idv.len() && 0 <= y < idv.len() && x != y implies idv[x] != idv[y] by {
                    assert(new_links@[x].key() != new_links@[y].key());
                }
                assert(distinct_keys(idv));
                assert(links@.subrange(0, kept.len() as int) =~= kept);
                assert(links@.subrange(kept.len() as int, links@.len() as int) =~= new_links@);
            }
            Ok(written)
        },
        Err(e) => {
            proof {
                assert(!keys_unique(new_links@));
                let (x, y) = choose|x: int, y: int|
                    0 <= x < new_links@.len() && 0 <= y < new_links@.len() && x != y
                        && #[trigger] new_links@[x].key() == #[trigger] new_links@[y].key();
                assert(idv[x] == idv[y]);
                assert(!distinct_keys(idv));
            }
            Err(e)
        },
    }
}

/// Replaces the related set of `anchor` with the rows `list` (by their keys); see
/// `set_related_ids`.
pub fn set_related<A: Entity, B: Entity, J: ManyToManyConstructor<A, B>>(
    links: &mut Table<J>,
    anchors: &Table<A>,
    related: &Table<B>,
    anchor: &A::Key,
    list: &Vec<B>,
) -> (r: Result<usize, StoreError>)
    requires
        old(links).wf(),
        anchors.wf(),
        related.wf(),
    ensures
        final(links).wf(),
        can_link(anchors@, related@, anchor@, row_keys(list@)) ==> r == Ok::<
            usize,
            StoreError,
        >(list.len()) && relinked::<A, B, J>(
            old(links)@,
            final(links)@,
            anchor@,
            row_keys(list@),
        ),
        !can_link(anchors@, related@, anchor@, row_keys(list@)) ==> r == Err::<
            usize,
            StoreError,
        >(StoreError::Constraint) && final(links)@ == old(links)@,
{
    let mut ids: Vec<B::Key> = Vec::new();
    let mut i: usize = 0;
    while i < list.len()
        invariant
            i <= list@.len(),
            ids@.len() == i,
            forall|j: int| 0 <= j < i ==> (#[trigger] ids@[j])@ == list@[j].key(),
        decreases list@.len() - i,
    {
        ids.push(list[i].key_of());
        i = i + 1;
    }
    proof {
        assert(key_views(ids@) =~= row_keys(list@));
    }
    set_related_ids(links, anchors, related, anchor, &ids)
}

} // verus!
