use vstd::prelude::*;

use crate::quipu::{knots_in, quipu_knots, Quipu, QuipuView};
use crate::table::{lemma_table_insert, lookup, table_insert, unique_names, NamedTable};

verus! {

/// Registry of named quipus.
#[derive(Debug)]
pub struct QuipuRegistry {
    pub quipus: NamedTable<Quipu>,
}

impl Clone for QuipuRegistry {
    fn clone(&self) -> (r: Self)
        ensures
            r.quipus@.len() == self.quipus@.len(),
            forall|i: int|
                0 <= i < r.quipus@.len() ==> #[trigger] r.quipus@[i].0 == self.quipus@[i].0
                    && r.quipus@[i].1@ == self.quipus@[i].1@ && r.quipus@[i].1.metadata@
                    == self.quipus@[i].1.metadata@,
    {
        let quipus = self.quipus.clone();
        assert forall|i: int| 0 <= i < quipus@.len() implies #[trigger] quipus@[i].0
            == self.quipus@[i].0 && quipus@[i].1@ == self.quipus@[i].1@ && quipus@[i].1.metadata@
            == self.quipus@[i].1.metadata@ by {
            assert(vstd::pervasive::cloned::<Quipu>(self.quipus@[i].1, quipus@[i].1));
        }
        QuipuRegistry { quipus }
    }
}

/// Counts over a registry: quipus, cords and knots.
#[derive(Debug, Clone, Copy, PartialEq, Eq, Structural)]
pub struct RegistryCounts {
    pub total_quipus: usize,
    pub total_cords: usize,
    pub total_knots: usize,
}

/// The sum of a sequence of natural numbers.
pub open spec fn sum_of(s: Seq<nat>) -> nat
    decreases s.len(),
{
    if s.len() == 0 {
        0
    } else {
        sum_of(s.drop_last()) + s.last()
    }
}

/// The number of cords of each registered quipu.
pub open spec fn cord_counts(s: Seq<(Seq<char>, Quipu)>) -> Seq<nat> {
    s.map_values(|e: (Seq<char>, Quipu)| (1 + e.1.cords@.len()) as nat)
}

/// The number of knots of each registered quipu.
pub open spec fn knot_counts(s: Seq<(Seq<char>, Quipu)>) -> Seq<nat> {
    s.map_values(|e: (Seq<char>, Quipu)| quipu_knots(e.1@))
}

proof fn lemma_sum_prefix(s: Seq<nat>, i: int)
    requires
        0 <= i < s.len(),
    ensures
        sum_of(s.take(i + 1)) == sum_of(s.take(i)) + s[i],
        sum_of(s.take(i + 1)) <= sum_of(s),
    decreases s.len() - i,
{
    assert(s.take(i + 1).drop_last() =~= s.take(i));
    if i + 1 < s.len() {
        lemma_sum_prefix(s, i + 1);
    } else {
        assert(s.take(i + 1) =~= s);
    }
}

proof fn lemma_knots_in_sum(s: Seq<(Seq<char>, crate::cord::CordView)>)
    ensures
        knots_in(s) == sum_of(Seq::new(s.len(), |j: int| s[j].1.knots.len())),
    decreases s.len(),
{
    if s.len() > 0 {
        lemma_knots_in_sum(s.drop_last());
        assert(Seq::new(s.len(), |j: int| s[j].1.knots.len()).drop_last() =~= Seq::new(
            s.drop_last().len(),
            |j: int| s.drop_last()[j].1.knots.len(),
        ));
    }
}

/// The knots of a quipu are those of its primary cord and of every stored cord.
pub proof fn lemma_quipu_knots(q: QuipuView)
    ensures
        quipu_knots(q) == q.primary.knots.len() + sum_of(
            Seq::new(q.cords.len(), |j: int| q.cords[j].1.knots.len()),
        ),
{
    lemma_knots_in_sum(q.cords);
}

/// What `registry_stats` adds up: for each registered quipu, in order, its cord count
/// (its primary cord and each stored cord) and its knot count (the knots of its primary
/// cord and of each stored cord).
pub proof fn lemma_registry_counts(s: Seq<(Seq<char>, Quipu)>)
    ensures
        cord_counts(s).len() == s.len(),
        knot_counts(s).len() == s.len(),
        forall|i: int|
            0 <= i < s.len() ==> #[trigger] cord_counts(s)[i] == 1 + s[i].1.cords@.len(),
        forall|i: int|
            0 <= i < s.len() ==> #[trigger] knot_counts(s)[i] == s[i].1@.primary.knots.len()
                + sum_of(
                Seq::new(s[i].1@.cords.len(), |j: int| s[i].1@.cords[j].1.knots.len()),
            ),
{
    assert forall|i: int| 0 <= i < s.len() implies #[trigger] knot_counts(s)[i]
        == s[i].1@.primary.knots.len() + sum_of(
        Seq::new(s[i].1@.cords.len(), |j: int| s[i].1@.cords[j].1.knots.len()),
    ) by {
        lemma_quipu_knots(s[i].1@);
    }
}

/// Registering a quipu under a name makes that name give back the quipu, and leaves
/// every other name as it was.
pub proof fn lemma_register_get(
    quipus: Seq<(Seq<char>, Quipu)>,
    id: Seq<char>,
    quipu: Quipu,
    other: Seq<char>,
)
    requires
        unique_names(quipus),
    ensures
        lookup(table_insert(quipus, id, quipu), id) == Some(quipu),
        other != id ==> lookup(table_insert(quipus, id, quipu), other) == lookup(quipus, other),
{
    lemma_table_insert(quipus, id, quipu);
}

impl QuipuRegistry {
    /// An empty registry.
    pub fn new() -> (r: Self)
        ensures
            r.quipus@ == Seq::<(Seq<char>, Quipu)>::empty(),
    {
        QuipuRegistry { quipus: NamedTable::new() }
    }

    /// Register a quipu under a name, replacing any quipu registered under it before.
    pub fn register(&mut self, id: &str, quipu: Quipu)
        ensures
            final(self).quipus@ == table_insert(old(self).quipus@, id@, quipu),
    {
        self.quipus.insert(id.to_owned(), quipu);
    }

    /// The quipu registered under a name, if any.
    pub fn get(&self, id: &str) -> (r: Option<&Quipu>)
        ensures
            match r {
                Some(q) => lookup(self.quipus@, id@) == Some(*q),
                None => lookup(self.quipus@, id@) is None,
            },
    {
        self.quipus.get(id)
    }

    /// Count quipus, cords and knots across the registry.
    pub fn registry_stats(&self) -> (c: RegistryCounts)
        requires
            sum_of(cord_counts(self.quipus@)) <= usize::MAX,
            sum_of(knot_counts(self.quipus@)) <= usize::MAX,
        ensures
            c.total_quipus == self.quipus@.len(),
            c.total_cords == sum_of(cord_counts(self.quipus@)),
            c.total_knots == sum_of(knot_counts(self.quipus@)),
            c.total_cords == sum_of(
                Seq::new(self.quipus@.len(), |i: int| (1 + self.quipus@[i].1.cords@.len()) as nat),
            ),
    {
        proof {
            lemma_registry_counts(self.quipus@);
            assert(cord_counts(self.quipus@) =~= Seq::new(
                self.quipus@.len(),
                |i: int| (1 + self.quipus@[i].1.cords@.len()) as nat,
            ));
        }
        let vs = self.quipus.values();
        let ghost qs = self.quipus@;
        let ghost cc = cord_counts(qs);
        let ghost kc = knot_counts(qs);
        let n = vs.len();
        let mut total_cords: usize = 0;
        let mut total_knots: usize = 0;
        let mut i: usize = 0;
        assert(cc.take(0) =~= Seq::<nat>::empty());
        assert(kc.take(0) =~= Seq::<nat>::empty());
        while i < n
            invariant
                n == vs@.len(),
                n == qs.len(),
                qs == self.quipus@,
                forall|j: int| 0 <= j < n ==> #[trigger] vs@[j] == qs[j].1,
                cc == cord_counts(qs),
                kc == knot_counts(qs),
                i <= n,
                sum_of(cc) <= usize::MAX,
                sum_of(kc) <= usize::MAX,
                total_cords == sum_of(cc.take(i as int)),
                total_knots == sum_of(kc.take(i as int)),
            decreases n - i,
        {
            proof {
                lemma_sum_prefix(cc, i as int);
                lemma_sum_prefix(kc, i as int);
            }
            let q = &vs[i];
            assert(qs[i as int].1 == *q);
            total_cords = total_cords + q.cord_count();
            total_knots = total_knots + q.total_knots();
            i += 1;
        }
        assert(cc.take(n as int) =~= cc);
        assert(kc.take(n as int) =~= kc);
        RegistryCounts { total_quipus: n, total_cords, total_knots }
    }
}

impl Default for QuipuRegistry {
    fn default() -> (r: Self)
        ensures
            r.quipus@ == Seq::<(Seq<char>, Quipu)>::empty(),
    {
        Self::new()
    }
}

} // verus!
