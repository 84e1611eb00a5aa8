//! The ledger of copy constraints: which things a list of demanded
//! equalities forces to be equal, kept as a forest of disjoint sets.

use vstd::prelude::*;

verus! {

/// Whether the pairs force `a` and `b` to be equal: whether `a` and `b` are
/// related by the least equivalence relation that relates the two sides of
/// every pair. Each pair joins the classes of its two sides, as they stand
/// after the pairs before it.
pub open spec fn same_class<T>(pairs: Seq<(T, T)>, a: T, b: T) -> bool
    decreases pairs.len(),
{
    if pairs.len() == 0 {
        a == b
    } else {
        let before = pairs.drop_last();
        let x = pairs.last().0;
        let y = pairs.last().1;
        ||| same_class(before, a, b)
        ||| (same_class(before, a, x) && same_class(before, y, b))
        ||| (same_class(before, a, y) && same_class(before, x, b))
    }
}

/// The last pair joins two classes of the pairs before it.
pub proof fn lemma_class_unfold<T>(pairs: Seq<(T, T)>, a: T, b: T)
    requires
        pairs.len() > 0,
    ensures
        same_class(pairs, a, b) == joined_by(
            pairs.drop_last(),
            pairs.last().0,
            pairs.last().1,
            a,
            b,
        ),
{
}

/// `same_class` is an equivalence relation.
pub proof fn lemma_class_equivalence<T>(pairs: Seq<(T, T)>)
    ensures
        forall|a: T| #[trigger] same_class(pairs, a, a),
        forall|a: T, b: T| #[trigger] same_class(pairs, a, b) ==> same_class(pairs, b, a),
        forall|a: T, b: T, c: T|
            #[trigger] same_class(pairs, a, b) && #[trigger] same_class(pairs, b, c)
                ==> same_class(pairs, a, c),
    decreases pairs.len(),
{
    if pairs.len() > 0 {
        let before = pairs.drop_last();
        let x = pairs.last().0;
        let y = pairs.last().1;
        lemma_class_equivalence(before);
        assert forall|a: T| #[trigger] same_class(pairs, a, a) by {
            assert(same_class(before, a, a));
        }
        assert forall|a: T, b: T| #[trigger] same_class(pairs, a, b) implies same_class(
            pairs,
            b,
            a,
        ) by {
            lemma_class_unfold(pairs, a, b);
            lemma_class_unfold(pairs, b, a);
            if same_class(before, a, b) {
                assert(same_class(before, b, a));
            } else if same_class(before, a, x) && same_class(before, y, b) {
                assert(same_class(before, b, y) && same_class(before, x, a));
            } else {
                assert(same_class(before, b, x) && same_class(before, y, a));
            }
        }
        assert forall|a: T, b: T, c: T| #[trigger]
            same_class(pairs, a, b) && #[trigger] same_class(pairs, b, c) implies same_class(
            pairs,
            a,
            c,
        ) by {
            lemma_class_unfold(pairs, a, b);
            lemma_class_unfold(pairs, b, c);
            lemma_class_unfold(pairs, a, c);
            lemma_class_step(before, x, y, a, b, c);
        }
    } else {
        assert forall|a: T| #[trigger] same_class(pairs, a, a) by {}
        assert forall|a: T, b: T| #[trigger] same_class(pairs, a, b) implies same_class(
            pairs,
            b,
            a,
        ) by {}
        assert forall|a: T, b: T, c: T| #[trigger]
            same_class(pairs, a, b) && #[trigger] same_class(pairs, b, c) implies same_class(
            pairs,
            a,
            c,
        ) by {}
    }
}

/// Whether `a` and `b` are in one class once the classes of `x` and `y`,
/// as `before` has them, are joined.
pub open spec fn joined_by<T>(before: Seq<(T, T)>, x: T, y: T, a: T, b: T) -> bool {
    ||| same_class(before, a, b)
    ||| (same_class(before, a, x) && same_class(before, y, b))
    ||| (same_class(before, a, y) && same_class(before, x, b))
}

/// Joining two classes of an equivalence relation gives a transitive
/// relation.
proof fn lemma_class_step<T>(before: Seq<(T, T)>, x: T, y: T, a: T, b: T, c: T)
    requires
        forall|a: T| #[trigger] same_class(before, a, a),
        forall|a: T, b: T| #[trigger] same_class(before, a, b) ==> same_class(before, b, a),
        forall|a: T, b: T, c: T|
            #[trigger] same_class(before, a, b) && #[trigger] same_class(before, b, c)
                ==> same_class(before, a, c),
        joined_by(before, x, y, a, b),
        joined_by(before, x, y, b, c),
    ensures
        joined_by(before, x, y, a, c),
{
    let ab0 = same_class(before, a, b);
    let ab1 = same_class(before, a, x) && same_class(before, y, b);
    let ab2 = same_class(before, a, y) && same_class(before, x, b);
    let bc0 = same_class(before, b, c);
    let bc1 = same_class(before, b, x) && same_class(before, y, c);
    let bc2 = same_class(before, b, y) && same_class(before, x, c);
    assert(same_class(before, x, x) && same_class(before, y, y));
    if ab0 {
        if bc0 {
            assert(same_class(before, a, c));
        } else if bc1 {
            assert(same_class(before, a, x));
        } else {
            assert(same_class(before, a, y));
        }
    } else if ab1 {
        if bc0 {
            assert(same_class(before, y, c));
        } else if bc1 {
            assert(same_class(before, y, x));
            assert(same_class(before, a, y));
            assert(same_class(before, a, c));
        } else {
            assert(same_class(before, y, y));
        }
    } else {
        if bc0 {
            assert(same_class(before, x, c));
        } else if bc1 {
            assert(same_class(before, x, x));
        } else {
            assert(same_class(before, x, y));
            assert(same_class(before, a, x));
            assert(same_class(before, a, c));
        }
    }
}

/// The two sides of every pair are in one class.
pub proof fn lemma_class_joins<T>(pairs: Seq<(T, T)>, i: int)
    requires
        0 <= i < pairs.len(),
    ensures
        same_class(pairs, pairs[i].0, pairs[i].1),
    decreases pairs.len(),
{
    let before = pairs.drop_last();
    lemma_class_equivalence(before);
    if i < pairs.len() - 1 {
        lemma_class_joins(before, i);
        assert(before[i] == pairs[i]);
        assert(same_class(before, pairs[i].0, pairs[i].1));
    } else {
        let x = pairs.last().0;
        let y = pairs.last().1;
        assert(same_class(before, x, x) && same_class(before, y, y));
    }
}

/// No equivalence relation that relates the two sides of every pair is
/// smaller than `same_class`.
pub proof fn lemma_class_least<T>(pairs: Seq<(T, T)>, rel: spec_fn(T, T) -> bool, a: T, b: T)
    requires
        forall|x: T| #[trigger] rel(x, x),
        forall|x: T, y: T| #[trigger] rel(x, y) ==> rel(y, x),
        forall|x: T, y: T, z: T| #[trigger] rel(x, y) && #[trigger] rel(y, z) ==> rel(x, z),
        forall|i: int| 0 <= i < pairs.len() ==> rel((#[trigger] pairs[i]).0, pairs[i].1),
        same_class(pairs, a, b),
    ensures
        rel(a, b),
    decreases pairs.len(),
{
    if pairs.len() > 0 {
        let before = pairs.drop_last();
        let x = pairs.last().0;
        let y = pairs.last().1;
        assert(rel(x, y));
        assert forall|i: int| 0 <= i < before.len() implies rel((#[trigger] before[i]).0, before[i].1) by {
            assert(before[i] == pairs[i]);
        }
        if same_class(before, a, b) {
            lemma_class_least(before, rel, a, b);
        } else if same_class(before, a, x) && same_class(before, y, b) {
            lemma_class_least(before, rel, a, x);
            lemma_class_least(before, rel, y, b);
        } else {
            lemma_class_least(before, rel, a, y);
            lemma_class_least(before, rel, x, b);
            assert(rel(y, x));
        }
    }
}

/// The pairs with both sides sent through `f`.
pub open spec fn image<T, U>(pairs: Seq<(T, T)>, f: spec_fn(T) -> U) -> Seq<(U, U)> {
    Seq::new(pairs.len(), |i: int| (f(pairs[i].0), f(pairs[i].1)))
}

/// Renaming the things that the pairs relate, one name for each, renames
/// the classes and changes nothing else.
pub proof fn lemma_class_image<T, U>(
    pairs: Seq<(T, T)>,
    f: spec_fn(T) -> U,
    within: spec_fn(T) -> bool,
    a: T,
    b: T,
)
    requires
        forall|x: T, y: T| within(x) && within(y) && #[trigger] f(x) == #[trigger] f(y) ==> x == y,
        forall|i: int|
            0 <= i < pairs.len() ==> within((#[trigger] pairs[i]).0) && within(pairs[i].1),
        within(a),
        within(b),
    ensures
        same_class(pairs, a, b) <==> same_class(image(pairs, f), f(a), f(b)),
    decreases pairs.len(),
{
    if pairs.len() > 0 {
        let before = pairs.drop_last();
        let x = pairs.last().0;
        let y = pairs.last().1;
        assert(image(pairs, f).drop_last() =~= image(before, f));
        assert(image(pairs, f).last() == (f(x), f(y)));
        assert(within(pairs[pairs.len() - 1].0) && within(pairs[pairs.len() - 1].1));
        assert forall|i: int| 0 <= i < before.len() implies within((#[trigger] before[i]).0)
            && within(before[i].1) by {
            assert(before[i] == pairs[i]);
        }
        lemma_class_unfold(pairs, a, b);
        lemma_class_unfold(image(pairs, f), f(a), f(b));
        lemma_class_image(before, f, within, a, b);
        lemma_class_image(before, f, within, a, x);
        lemma_class_image(before, f, within, y, b);
        lemma_class_image(before, f, within, a, y);
        lemma_class_image(before, f, within, x, b);
    }
}

/// Disjoint sets over the numbers below `len()`, with the pairs that were
/// joined so far.
pub struct Ledger {
    parent: Vec<usize>,
    rank: Vec<usize>,
    joined: Ghost<Seq<(int, int)>>,
}

impl Ledger {
    /// The number of elements.
    pub closed spec fn size(&self) -> nat {
        self.parent@.len()
    }

    /// The pairs that were joined, in order.
    pub closed spec fn pairs(&self) -> Seq<(int, int)> {
        self.joined@
    }

    /// Every element points to an element, and the way up from an element to
    /// its root climbs in rank.
    pub closed spec fn shaped(&self) -> bool {
        &&& self.rank@.len() == self.parent@.len()
        &&& forall|i: int| 0 <= i < self.parent@.len() ==> #[trigger] self.parent@[i] < self.parent@.len()
        &&& forall|i: int| 0 <= i < self.rank@.len() ==> #[trigger] self.rank@[i] <= self.joined@.len()
        &&& forall|i: int|
            0 <= i < self.parent@.len() && #[trigger] self.parent@[i] != i ==> self.rank@[i]
                < self.rank@[self.parent@[i] as int]
    }

    /// How far the rank of `i` lies below the bound on all ranks: what
    /// shrinks on the way up from an element to its root.
    pub closed spec fn slack(&self, i: int) -> int {
        self.joined@.len() - self.rank@[i]
    }

    /// The root of the tree that holds `i`.
    pub closed spec fn root(&self, i: int) -> int
        decreases self.slack(i),
        when self.shaped() && 0 <= i < self.size()
    {
        if self.parent@[i] == i {
            i
        } else {
            self.root(self.parent@[i] as int)
        }
    }

    /// The invariant of a ledger: two elements have one root exactly where
    /// the joined pairs put them in one class.
    pub closed spec fn wf(&self) -> bool {
        &&& self.shaped()
        &&& forall|i: int, j: int|
            0 <= i < self.size() && 0 <= j < self.size() ==> (self.root(i) == self.root(j)
                <==> #[trigger] same_class(self.joined@, i, j))
    }

    /// Roots are elements, and each is its own root.
    pub proof fn lemma_root(&self, i: int)
        requires
            self.wf(),
            0 <= i < self.size(),
        ensures
            0 <= self.root(i) < self.size(),
            self.root(self.root(i)) == self.root(i),
        decreases self.slack(i),
    {
        self.lemma_root_is_fixed(i);
    }

    /// A root points to itself.
    proof fn lemma_root_is_fixed(&self, i: int)
        requires
            self.shaped(),
            0 <= i < self.size(),
        ensures
            0 <= self.root(i) < self.size(),
            self.parent@[self.root(i)] == self.root(i),
            self.root(self.root(i)) == self.root(i),
        decreases self.slack(i),
    {
        if self.parent@[i] != i {
            self.lemma_root_is_fixed(self.parent@[i] as int);
        }
    }

    /// After the root `child` was hung below the root `top`, the elements of
    /// its tree have `top` as their root, and all others keep theirs.
    proof fn lemma_hung(&self, after: &Ledger, child: int, top: int, i: int)
        requires
            self.shaped(),
            after.shaped(),
            0 <= i < self.size(),
            0 <= child < self.size(),
            0 <= top < self.size(),
            child != top,
            self.parent@[child] == child,
            self.parent@[top] == top,
            after.parent@ == self.parent@.update(child, top as usize),
        ensures
            after.root(i) == if self.root(i) == child {
                top
            } else {
                self.root(i)
            },
        decreases self.slack(i),
    {
        if self.parent@[i] == i {
            if i == child {
                assert(after.parent@[top] == top);
                assert(after.root(top) == top);
                assert(after.root(child) == after.root(top));
            }
        } else {
            self.lemma_hung(after, child, top, self.parent@[i] as int);
        }
    }

    /// A ledger of `n` elements, none joined to another.
    pub fn new(n: usize) -> (r: Self)
        ensures
            r.wf(),
            r.size() == n,
            r.pairs() == Seq::<(int, int)>::empty(),
    {
        let mut parent: Vec<usize> = Vec::new();
        let mut rank: Vec<usize> = Vec::new();
        let mut i: usize = 0;
        while i < n
            invariant
                i <= n,
                parent@.len() == i,
                rank@.len() == i,
                forall|k: int| 0 <= k < i ==> #[trigger] parent@[k] == k,
                forall|k: int| 0 <= k < i ==> #[trigger] rank@[k] == 0,
            decreases n - i,
        {
            parent.push(i);
            rank.push(0);
            i += 1;
        }
        let r = Ledger { parent, rank, joined: Ghost(Seq::empty()) };
        r
    }

    /// The number of elements.
    pub fn len(&self) -> (r: usize)
        ensures
            r == self.size(),
    {
        self.parent.len()
    }

    /// The root of the tree that holds `i`.
    pub fn find(&self, i: usize) -> (r: usize)
        requires
            self.wf(),
            i < self.size(),
        ensures
            r == self.root(i as int),
            r < self.size(),
    {
        let mut x: usize = i;
        proof {
            self.lemma_root(i as int);
        }
        while self.parent[x] != x
            invariant
                self.shaped(),
                x < self.size(),
                self.root(x as int) == self.root(i as int),
            decreases self.slack(x as int),
        {
            x = self.parent[x];
        }
        x
    }

    /// Whether the joined pairs put `a` and `b` in one class.
    pub fn connected(&self, a: usize, b: usize) -> (r: bool)
        requires
            self.wf(),
            a < self.size(),
            b < self.size(),
        ensures
            r == same_class(self.pairs(), a as int, b as int),
    {
        self.find(a) == self.find(b)
    }

    /// Joins the classes of `a` and `b`.
    pub fn union(&mut self, a: usize, b: usize)
        requires
            old(self).wf(),
            a < old(self).size(),
            b < old(self).size(),
            old(self).pairs().len() < usize::MAX,
        ensures
            final(self).wf(),
            final(self).size() == old(self).size(),
            final(self).pairs() == old(self).pairs().push((a as int, b as int)),
    {
        let ra = self.find(a);
        let rb = self.find(b);
        let ghost before = *self;
        let ghost pairs = self.joined@;
        proof {
            before.lemma_root_is_fixed(a as int);
            before.lemma_root_is_fixed(b as int);
            lemma_class_equivalence(pairs);
        }
        self.joined = Ghost(pairs.push((a as int, b as int)));
        assert(self.joined@.drop_last() =~= pairs);
        if ra == rb {
            proof {
                assert(self.shaped());
                assert forall|i: int, j: int|
                    0 <= i < self.size() && 0 <= j < self.size() implies (self.root(i)
                    == self.root(j) <==> #[trigger] same_class(self.joined@, i, j)) by {
                    self.lemma_same_roots(&before, i);
                    self.lemma_same_roots(&before, j);
                    lemma_class_unfold(self.joined@, i, j);
                    before.lemma_faithful(i, j);
                    before.lemma_faithful(i, a as int);
                    before.lemma_faithful(i, b as int);
                    before.lemma_faithful(a as int, j);
                    before.lemma_faithful(b as int, j);
                }
            }
            return ;
        }
        let (child, top) = if self.rank[ra] <= self.rank[rb] {
            (ra, rb)
        } else {
            (rb, ra)
        };
        if self.rank[child] == self.rank[top] {
            self.rank[top] = self.rank[top] + 1;
        }
        self.parent[child] = top;
        proof {
            assert forall|i: int| 0 <= i < self.size() implies self.root(i) == if before.root(i)
                == child {
                top as int
            } else {
                before.root(i)
            } by {
                before.lemma_hung(self, child as int, top as int, i);
            }
            assert forall|i: int, j: int| 0 <= i < self.size() && 0 <= j < self.size() implies (
            self.root(i) == self.root(j) <==> #[trigger] same_class(self.joined@, i, j)) by {
                before.lemma_root(i);
                before.lemma_root(j);
                lemma_class_unfold(self.joined@, i, j);
                before.lemma_faithful(i, j);
                before.lemma_faithful(i, a as int);
                before.lemma_faithful(i, b as int);
                before.lemma_faithful(a as int, j);
                before.lemma_faithful(b as int, j);
            }
        }
    }

    /// Two elements have one root exactly where the joined pairs put them
    /// in one class.
    pub proof fn lemma_faithful(&self, i: int, j: int)
        requires
            self.wf(),
            0 <= i < self.size(),
            0 <= j < self.size(),
        ensures
            self.root(i) == self.root(j) <==> same_class(self.pairs(), i, j),
    {
    }

    /// Where nothing but the joined pairs differs, the roots are the same.
    proof fn lemma_same_roots(&self, other: &Ledger, i: int)
        requires
            self.shaped(),
            other.shaped(),
            self.parent@ == other.parent@,
            self.rank@ == other.rank@,
            0 <= i < self.size(),
        ensures
            self.root(i) == other.root(i),
        decreases self.slack(i),
    {
        if self.parent@[i] != i {
            self.lemma_same_roots(other, self.parent@[i] as int);
        }
    }
}

} // verus!
