use vstd::prelude::*;

verus! {

/// The ways in which an operation on the store can fail.
#[derive(Debug, Clone, Copy, PartialEq, Eq, Structural)]
pub enum StoreError {
    /// A lookup required exactly one row and found none.
    NotFound,
    /// A write would break a uniqueness or foreign-key constraint.
    Constraint,
    /// The store cannot take the write (for instance, no key is left to generate).
    Store,
}

/// A persisted record type: it has a primary key, unique within its table.
pub trait Entity: Sized {
    /// The executable form of the primary key.
    type Key: View;

    /// The primary key of this row, as a mathematical value.
    spec fn key(&self) -> <Self::Key as View>::V;

    /// The primary key of this row.
    fn key_of(&self) -> (r: Self::Key)
        ensures
            r@ == self.key(),
    ;

    /// Tests whether this row's primary key is `k`.
    fn has_key(&self, k: &Self::Key) -> (r: bool)
        ensures
            r == (self.key() == k@),
    ;

    /// Tests whether two rows carry the same primary key.
    fn same_key(&self, other: &Self) -> (r: bool)
        ensures
            r == (self.key() == other.key()),
    ;

    /// A copy of this row.
    fn copy_row(&self) -> (r: Self)
        ensures
            r == *self,
    ;
}

/// A child entity that holds a foreign key to the parent entity `P`.
pub trait BelongsTo<P: Entity>: Entity {
    /// The parent's key that this row refers to, if any.
    spec fn parent_key(&self) -> Option<<P::Key as View>::V>;

    /// The executable foreign key.
    fn foreign_key(&self) -> (r: Option<&P::Key>)
        ensures
            match r {
                None => self.parent_key().is_none(),
                Some(k) => self.parent_key() == Some(k@),
            },
    ;

    /// Tests whether this row refers to the parent with key `k`.
    fn refers_to(&self, k: &P::Key) -> (r: bool)
        ensures
            r == (self.parent_key() == Some(k@)),
    ;
}

/// An entity whose primary key is a single integer that the store can generate.
pub trait IntKeyed: Entity<Key = i32> {
    /// The primary key.
    fn int_key(&self) -> (r: i32)
        ensures
            r == self.key(),
    ;
}

/// A value that holds every attribute of an `R` but the store-generated primary key.
pub trait Constructor<R: IntKeyed> {
    /// Row `r` carries this value's attributes (its key aside).
    spec fn fills(&self, r: R) -> bool;

    /// Makes the row under primary key `id`.
    fn build(&self, id: i32) -> (r: R)
        ensures
            self.fills(r),
            r.key() == id,
    ;
}

/// A join entity whose rows link an `A` to a `B`; its primary key is the pair of the two
/// foreign keys.
pub trait ManyToManyConstructor<A: Entity, B: Entity>: BelongsTo<A> + BelongsTo<B> {
    /// This row is the plain link from `a` to `b`: default values for any other attribute.
    spec fn is_link(&self, a: <A::Key as View>::V, b: <B::Key as View>::V) -> bool;

    /// Makes the join row that links `a` to `b`.
    fn new(a: &A::Key, b: &B::Key) -> (r: Self)
        ensures
            r.is_link(a@, b@),
            <Self as BelongsTo<A>>::parent_key(&r) == Some(a@),
            <Self as BelongsTo<B>>::parent_key(&r) == Some(b@),
    ;

    /// Two join rows share a primary key exactly when they link the same pair.
    proof fn lemma_key_is_pair(x: Self, y: Self)
        ensures
            (x.key() == y.key()) <==> (<Self as BelongsTo<A>>::parent_key(&x)
                == <Self as BelongsTo<A>>::parent_key(&y) && <Self as BelongsTo<B>>::parent_key(
                &x,
            ) == <Self as BelongsTo<B>>::parent_key(&y)),
    ;
}

} // verus!
