use std::collections::HashMap;
use vstd::prelude::*;

use crate::cord::{
    decoded_readings, encoded_cord, id_names, lemma_decode_encode_cord, reading_views, reads_back,
    Cord, CordView, Reading, ReadingView,
};
use crate::cord_id::{primary_name, CordId};
use crate::cord_type::CordType;
use crate::knot::SignedMagnitude;
use crate::table::{
    has_name, lemma_map_entries, lemma_table_insert, lookup, map_entries,
    table_insert, unique_names, NamedTable,
};

verus! {

/// The full quipu: a primary cord with attached cords forming a hierarchical tensor.
#[derive(Debug)]
pub struct Quipu {
    pub primary_cord: Cord,
    pub cords: NamedTable<Cord>,
    pub metadata: HashMap<String, String>,
    pub tick_created: u64,
}

impl Clone for Quipu {
    fn clone(&self) -> (q: Self)
        ensures
            q@ == self@,
            q.metadata@ == self.metadata@,
    {
        let cords = self.cords.clone();
        let ghost f = cord_view_of();
        assert(map_entries(cords@, f) =~= map_entries(self.cords@, f)) by {
            assert forall|i: int| 0 <= i < cords@.len() implies #[trigger] map_entries(
                cords@,
                f,
            )[i] == map_entries(self.cords@, f)[i] by {
                assert(vstd::pervasive::cloned::<Cord>(self.cords@[i].1, cords@[i].1));
            }
        }
        Quipu {
            primary_cord: self.primary_cord.clone(),
            cords,
            metadata: self.metadata.clone(),
            tick_created: self.tick_created,
        }
    }
}

/// What a quipu holds: its primary cord, its other cords by name in the order their
/// names were first stored, and when it was created.
pub struct QuipuView {
    pub primary: CordView,
    pub cords: Seq<(Seq<char>, CordView)>,
    pub tick_created: u64,
}

/// The view of a cord, as a function.
pub open spec fn cord_view_of() -> spec_fn(Cord) -> CordView {
    |c: Cord| c@
}

impl View for Quipu {
    type V = QuipuView;

    open spec fn view(&self) -> QuipuView {
        QuipuView {
            primary: self.primary_cord@,
            cords: map_entries(self.cords@, cord_view_of()),
            tick_created: self.tick_created,
        }
    }
}

/// The type a cord takes under a parent of the given depth: Secondary under depth 1,
/// Tertiary under depth 2, Auxiliary deeper.
pub open spec fn child_type(parent_depth: u32) -> CordType {
    if parent_depth == 1 {
        CordType::Secondary
    } else if parent_depth == 2 {
        CordType::Tertiary
    } else {
        CordType::Auxiliary
    }
}

/// The depth of the cord named `parent`: 1 for the primary cord, the depth of a stored
/// cord of that name, and 1 when there is none.
pub open spec fn parent_depth(q: QuipuView, parent: Seq<char>) -> u32 {
    if parent == primary_name() {
        1
    } else {
        match lookup(q.cords, parent) {
            Some(c) => c.cord_type.spec_depth(),
            None => 1,
        }
    }
}

/// The cord with one more child name.
pub open spec fn with_child(c: CordView, child: Seq<char>) -> CordView {
    CordView { child_cords: c.child_cords.push(child), ..c }
}

/// The cord as `add_cord` stores it under `parent`.
pub open spec fn placed_cord(q: QuipuView, parent: Seq<char>, c: CordView) -> CordView {
    CordView { cord_type: child_type(parent_depth(q, parent)), parent_cord: Some(parent), ..c }
}

/// The quipu after adding cord `c` under `parent`: the parent (the primary cord, or the
/// stored cord of that name if there is one) lists the new cord's name as a child, and
/// the cord, with its parent and its type set, is stored under its name, replacing any
/// cord stored there before.
pub open spec fn after_add_cord(q: QuipuView, parent: Seq<char>, c: CordView) -> QuipuView {
    let placed = placed_cord(q, parent, c);
    if parent == primary_name() {
        QuipuView {
            primary: with_child(q.primary, c.id),
            cords: table_insert(q.cords, c.id, placed),
            tick_created: q.tick_created,
        }
    } else {
        let linked = match lookup(q.cords, parent) {
            Some(pc) => table_insert(q.cords, parent, with_child(pc, c.id)),
            None => q.cords,
        };
        QuipuView {
            primary: q.primary,
            cords: table_insert(linked, c.id, placed),
            tick_created: q.tick_created,
        }
    }
}

/// The greatest depth among stored cords; 0 when there is none.
pub open spec fn deepest(s: Seq<(Seq<char>, CordView)>) -> u32
    decreases s.len(),
{
    if s.len() == 0 {
        0
    } else {
        let d = s.last().1.cord_type.spec_depth();
        let m = deepest(s.drop_last());
        if d > m {
            d
        } else {
            m
        }
    }
}

/// The depth of the quipu: the greatest depth of its primary cord and its stored cords.
pub open spec fn quipu_depth(q: QuipuView) -> u32 {
    let children: u32 = if q.cords.len() == 0 {
        1
    } else {
        deepest(q.cords)
    };
    let p = q.primary.cord_type.spec_depth();
    if p > children {
        p
    } else {
        children
    }
}

/// The number of knots on the stored cords.
pub open spec fn knots_in(s: Seq<(Seq<char>, CordView)>) -> nat
    decreases s.len(),
{
    if s.len() == 0 {
        0
    } else {
        knots_in(s.drop_last()) + s.last().1.knots.len()
    }
}

/// The number of knots on all cords of the quipu.
pub open spec fn quipu_knots(q: QuipuView) -> nat {
    q.primary.knots.len() + knots_in(q.cords)
}

/// Name and numbers of each entry of tensor data.
pub open spec fn tensor_data(data: Seq<(String, Vec<SignedMagnitude>)>) -> Seq<
    (Seq<char>, Seq<SignedMagnitude>),
> {
    data.map_values(|e: (String, Vec<SignedMagnitude>)| (e.0@, e.1@))
}

/// The cord `encode_tensor` makes for one entry: named after it, white, Secondary,
/// with the entry's numbers encoded on it.
pub open spec fn tensor_cord(name: Seq<char>, vals: Seq<SignedMagnitude>) -> CordView {
    CordView {
        id: name,
        knots: encoded_cord(vals),
        color: "white"@,
        cord_type: CordType::Secondary,
        child_cords: Seq::empty(),
        parent_cord: None,
    }
}

/// The quipu after encoding tensor data: one cord per entry, in order, each added
/// under the primary cord.
pub open spec fn tensor_encoded(q: QuipuView, data: Seq<(Seq<char>, Seq<SignedMagnitude>)>) -> QuipuView
    decreases data.len(),
{
    if data.len() == 0 {
        q
    } else {
        after_add_cord(
            tensor_encoded(q, data.drop_last()),
            primary_name(),
            tensor_cord(data.last().0, data.last().1),
        )
    }
}

/// What `decode_tensor` reads: the readings of the primary cord under "primary", then
/// those of each stored cord under its name.
pub open spec fn decoded_tensor(q: QuipuView) -> Seq<(Seq<char>, Seq<ReadingView>)> {
    seq![(primary_name(), decoded_readings(q.primary.knots))] + q.cords.map_values(
        |e: (Seq<char>, CordView)| (e.0, decoded_readings(e.1.knots)),
    )
}

/// Named readings with names and readings by their views.
pub open spec fn named_reading_views(r: Seq<(String, Vec<Reading>)>) -> Seq<
    (Seq<char>, Seq<ReadingView>),
> {
    r.map_values(|e: (String, Vec<Reading>)| (e.0@, reading_views(e.1@)))
}

/// A cord added under a parent is one level deeper than the parent, down to the
/// Auxiliary level: its depth is the parent's depth plus one, but at most 4.
pub proof fn lemma_child_depth(q: QuipuView, parent: Seq<char>, c: CordView)
    ensures
        1 <= parent_depth(q, parent) <= 4,
        placed_cord(q, parent, c).cord_type.spec_depth() == if parent_depth(q, parent) < 4 {
            parent_depth(q, parent) + 1
        } else {
            4
        },
{
}

/// After adding a cord, its name holds the cord as placed under its parent, names stay
/// unique, and the number of stored cords grows by one exactly when the name was new.
pub proof fn lemma_add_cord_stores(q: QuipuView, parent: Seq<char>, c: CordView)
    requires
        unique_names(q.cords),
    ensures
        unique_names(after_add_cord(q, parent, c).cords),
        lookup(after_add_cord(q, parent, c).cords, c.id) == Some(placed_cord(q, parent, c)),
        has_name(q.cords, c.id) ==> after_add_cord(q, parent, c).cords.len() == q.cords.len(),
        !has_name(q.cords, c.id) ==> after_add_cord(q, parent, c).cords.len() == q.cords.len()
            + 1,
{
    let placed = placed_cord(q, parent, c);
    if parent == primary_name() {
        lemma_table_insert(q.cords, c.id, placed);
    } else {
        match lookup(q.cords, parent) {
            Some(pc) => {
                let linked = table_insert(q.cords, parent, with_child(pc, c.id));
                lemma_table_insert(q.cords, parent, with_child(pc, c.id));
                lemma_table_insert(linked, c.id, placed);
                assert(has_name(q.cords, parent));
                if has_name(q.cords, c.id) {
                    let i = crate::table::name_index(q.cords, c.id);
                    crate::table::lemma_name_index(q.cords, i);
                    assert(lookup(linked, c.id) is Some);
                } else {
                    if has_name(linked, c.id) {
                        let i = crate::table::name_index(linked, c.id);
                        crate::table::lemma_name_index(linked, i);
                        assert(c.id != parent);
                        assert(lookup(linked, c.id) == lookup(q.cords, c.id));
                    }
                }
            },
            None => {
                lemma_table_insert(q.cords, c.id, placed);
            },
        }
    }
}

/// Adding a cord stores it under its own name with its own id, knots, color and
/// children, linked to its parent and typed one level below it (Secondary under the
/// primary cord or an unknown parent, Tertiary under a depth-2 cord, Auxiliary deeper);
/// the parent lists the new name as its last child; every other cord is left alone.
pub proof fn lemma_add_cord_places(q: QuipuView, parent: Seq<char>, c: CordView)
    requires
        unique_names(q.cords),
    ensures
        ({
            let after = after_add_cord(q, parent, c);
            &&& after.tick_created == q.tick_created
            &&& lookup(after.cords, c.id) is Some
            &&& lookup(after.cords, c.id).unwrap().id == c.id
            &&& lookup(after.cords, c.id).unwrap().knots == c.knots
            &&& lookup(after.cords, c.id).unwrap().color == c.color
            &&& lookup(after.cords, c.id).unwrap().child_cords == c.child_cords
            &&& lookup(after.cords, c.id).unwrap().parent_cord == Some(parent)
            &&& lookup(after.cords, c.id).unwrap().cord_type == (if parent == primary_name() {
                CordType::Secondary
            } else {
                match lookup(q.cords, parent) {
                    Some(pc) => if pc.cord_type.spec_depth() == 1 {
                        CordType::Secondary
                    } else if pc.cord_type.spec_depth() == 2 {
                        CordType::Tertiary
                    } else {
                        CordType::Auxiliary
                    },
                    None => CordType::Secondary,
                }
            })
        }),
        parent == primary_name() ==> after_add_cord(q, parent, c).primary == (CordView {
            child_cords: q.primary.child_cords.push(c.id),
            ..q.primary
        }),
        parent != primary_name() ==> after_add_cord(q, parent, c).primary == q.primary,
        parent != primary_name() && parent != c.id ==> match lookup(q.cords, parent) {
            Some(pc) => lookup(after_add_cord(q, parent, c).cords, parent) == Some(
                CordView { child_cords: pc.child_cords.push(c.id), ..pc },
            ),
            None => lookup(after_add_cord(q, parent, c).cords, parent) is None,
        },
        forall|k: Seq<char>|
            k != c.id && k != parent ==> #[trigger] lookup(after_add_cord(q, parent, c).cords, k)
                == lookup(q.cords, k),
{
    lemma_add_cord_stores(q, parent, c);
    let placed = placed_cord(q, parent, c);
    if parent == primary_name() {
        lemma_table_insert(q.cords, c.id, placed);
    } else {
        match lookup(q.cords, parent) {
            Some(pc) => {
                let linked = table_insert(q.cords, parent, with_child(pc, c.id));
                lemma_table_insert(q.cords, parent, with_child(pc, c.id));
                lemma_table_insert(linked, c.id, placed);
            },
            None => {
                lemma_table_insert(q.cords, c.id, placed);
            },
        }
    }
}

/// Decoding a quipu's tensor gives the readings of the primary cord under "primary"
/// first, then, for every stored cord in order, its name with that cord's own readings.
pub proof fn lemma_decode_tensor_entries(q: QuipuView)
    ensures
        decoded_tensor(q).len() == q.cords.len() + 1,
        decoded_tensor(q)[0] == (primary_name(), decoded_readings(q.primary.knots)),
        forall|j: int|
            0 <= j < q.cords.len() ==> #[trigger] decoded_tensor(q)[j + 1] == (
                q.cords[j].0,
                decoded_readings(q.cords[j].1.knots),
            ),
{
}

/// Encoding tensor data with distinct names stores, under each name, a cord whose
/// readings give back that name's numbers, each with its sign.
pub proof fn lemma_decode_encode_tensor(
    q: QuipuView,
    data: Seq<(Seq<char>, Seq<SignedMagnitude>)>,
)
    requires
        unique_names(q.cords),
        unique_names(data),
        forall|j: int| 0 <= j < data.len() ==> #[trigger] data[j].1.len() <= 0x1_0000_0000,
    ensures
        unique_names(tensor_encoded(q, data).cords),
        forall|j: int|
            0 <= j < data.len() ==> match #[trigger] lookup(
                tensor_encoded(q, data).cords,
                data[j].0,
            ) {
                Some(c) => {
                    &&& reads_back(c.knots, data[j].1)
                    &&& c.id == data[j].0
                    &&& c.color == "white"@
                    &&& c.cord_type == CordType::Secondary
                    &&& c.parent_cord == Some(primary_name())
                    &&& c.child_cords == Seq::<Seq<char>>::empty()
                },
                None => false,
            },
    decreases data.len(),
{
    if data.len() > 0 {
        let prev = data.drop_last();
        assert(unique_names(prev));
        assert forall|j: int| 0 <= j < prev.len() implies #[trigger] prev[j].1.len()
            <= 0x1_0000_0000 by {
            assert(prev[j] == data[j]);
        }
        lemma_decode_encode_tensor(q, prev);
        let t = tensor_encoded(q, prev);
        let c = tensor_cord(data.last().0, data.last().1);
        lemma_add_cord_stores(t, primary_name(), c);
        lemma_table_insert(t.cords, c.id, placed_cord(t, primary_name(), c));
        lemma_decode_encode_cord(data.last().1);
        assert forall|j: int| 0 <= j < data.len() implies match #[trigger] lookup(
            tensor_encoded(q, data).cords,
            data[j].0,
        ) {
            Some(c) => {
                &&& reads_back(c.knots, data[j].1)
                &&& c.id == data[j].0
                &&& c.color == "white"@
                &&& c.cord_type == CordType::Secondary
                &&& c.parent_cord == Some(primary_name())
                &&& c.child_cords == Seq::<Seq<char>>::empty()
            },
            None => false,
        } by {
            if j < data.len() - 1 {
                assert(prev[j] == data[j]);
                assert(data[j].0 != data[data.len() - 1].0);
                assert(lookup(tensor_encoded(q, data).cords, data[j].0) == lookup(
                    t.cords,
                    prev[j].0,
                ));
            }
        }
    }
}

proof fn lemma_knots_in_prefix(s: Seq<(Seq<char>, CordView)>, i: int)
    requires
        0 <= i <= s.len(),
    ensures
        knots_in(s.take(i)) <= knots_in(s),
    decreases s.len() - i,
{
    if i < s.len() {
        lemma_knots_in_prefix(s, i + 1);
        assert(s.take(i + 1).drop_last() =~= s.take(i));
    } else {
        assert(s.take(i) =~= s);
    }
}

proof fn lemma_deepest_bounded(s: Seq<(Seq<char>, CordView)>)
    ensures
        deepest(s) <= 4,
        s.len() > 0 ==> 1 <= deepest(s),
    decreases s.len(),
{
    if s.len() > 0 {
        lemma_deepest_bounded(s.drop_last());
    }
}

proof fn lemma_deepest_is_maximum(s: Seq<(Seq<char>, CordView)>)
    ensures
        forall|i: int| 0 <= i < s.len() ==> deepest(s) >= #[trigger] s[i].1.cord_type.spec_depth(),
        s.len() > 0 ==> exists|i: int|
            0 <= i < s.len() && deepest(s) == #[trigger] s[i].1.cord_type.spec_depth(),
    decreases s.len(),
{
    if s.len() > 0 {
        let r = s.drop_last();
        lemma_deepest_is_maximum(r);
        assert forall|i: int| 0 <= i < s.len() implies deepest(s) >= #[trigger] s[i].1.cord_type.spec_depth() by {
            if i < s.len() - 1 {
                assert(r[i] == s[i]);
            }
        }
        let last = s.len() - 1;
        if deepest(s) == s[last].1.cord_type.spec_depth() {
        } else {
            let i = choose|i: int| 0 <= i < r.len() && deepest(r) == #[trigger] r[i].1.cord_type.spec_depth();
            assert(r[i] == s[i]);
        }
    }
}

/// The depth of a quipu is the greatest depth of its cords: at least the depth of the
/// primary cord and of every stored cord, and equal to one of them.
pub proof fn lemma_depth_is_maximum(q: QuipuView)
    ensures
        quipu_depth(q) >= q.primary.cord_type.spec_depth(),
        forall|i: int|
            0 <= i < q.cords.len() ==> quipu_depth(q) >= #[trigger] q.cords[i].1.cord_type.spec_depth(),
        quipu_depth(q) == q.primary.cord_type.spec_depth() || exists|i: int|
            0 <= i < q.cords.len() && quipu_depth(q) == #[trigger] q.cords[i].1.cord_type.spec_depth(),
{
    lemma_deepest_is_maximum(q.cords);
}

proof fn lemma_cord_views(t: NamedTable<Cord>, ns: Seq<String>, vs: Seq<Cord>)
    requires
        ns.len() == t@.len(),
        vs.len() == t@.len(),
        forall|i: int| 0 <= i < ns.len() ==> #[trigger] ns[i]@ == t@[i].0,
        forall|i: int| 0 <= i < vs.len() ==> #[trigger] vs[i] == t@[i].1,
    ensures
        map_entries(t@, cord_view_of()).len() == vs.len(),
        forall|i: int|
            0 <= i < vs.len() ==> #[trigger] map_entries(t@, cord_view_of())[i] == (
            ns[i]@,
            vs[i]@,
            ),
{
    assert forall|i: int| 0 <= i < vs.len() implies #[trigger] map_entries(
        t@,
        cord_view_of(),
    )[i] == (ns[i]@, vs[i]@) by {
        assert(ns[i]@ == t@[i].0);
        assert(vs[i] == t@[i].1);
    }
}

impl Quipu {
    /// A quipu with only its primary cord: named "primary", brown, of type Primary.
    pub fn new(metadata: HashMap<String, String>, tick: u64) -> (q: Quipu)
        ensures
            q@.primary == (CordView {
                id: primary_name(),
                knots: Seq::empty(),
                color: "brown"@,
                cord_type: CordType::Primary,
                child_cords: Seq::empty(),
                parent_cord: None,
            }),
            q@.cords == Seq::<(Seq<char>, CordView)>::empty(),
            q.metadata == metadata,
            q.tick_created == tick,
    {
        let primary = Cord::new(CordId::new("primary"), "brown", CordType::Primary);
        let q = Quipu { primary_cord: primary, cords: NamedTable::new(), metadata, tick_created: tick };
        assert(q@.cords =~= Seq::<(Seq<char>, CordView)>::empty());
        q
    }

    /// Add a cord as a child of the given parent. Returns the new cord's ID.
    pub fn add_cord(&mut self, parent: &CordId, cord: Cord) -> (id: CordId)
        ensures
            id == cord.id,
            final(self)@ == after_add_cord(old(self)@, parent.0@, cord@),
            final(self).metadata == old(self).metadata,
    {
        let ghost q0 = self@;
        let ghost c0 = cord@;
        let ghost f = cord_view_of();
        let ghost given = cord;
        let mut cord = cord;
        let id = cord.id.clone();
        cord.parent_cord = Some(parent.clone());
        let is_primary = parent.is_primary();
        let parent_depth: u32 = if is_primary {
            1
        } else {
            let found = self.cords.get(parent.0.as_str());
            proof {
                lemma_map_entries(self.cords@, f, parent.0@, given);
            }
            match found {
                Some(c) => c.depth(),
                None => 1,
            }
        };
        assert(parent_depth == crate::quipu::parent_depth(q0, parent.0@));
        cord.cord_type = if parent_depth == 1 {
            CordType::Secondary
        } else if parent_depth == 2 {
            CordType::Tertiary
        } else {
            CordType::Auxiliary
        };
        assert(cord@ == placed_cord(q0, parent.0@, c0));
        if is_primary {
            let child = id.clone();
            let ghost before = self.primary_cord.child_cords@;
            self.primary_cord.child_cords.push(child);
            assert(id_names(self.primary_cord.child_cords@) =~= id_names(before).push(id.0@));
        } else {
            match self.cords.get_mut(parent.0.as_str()) {
                Some(pc) => {
                    let child = id.clone();
                    let ghost before = pc.child_cords@;
                    pc.child_cords.push(child);
                    assert(id_names(pc.child_cords@) =~= id_names(before).push(id.0@));
                },
                None => {},
            }
        }
        let ghost raw1 = self.cords@;
        let ghost stored = cord;
        self.cords.insert(id.0.clone(), cord);
        proof {
            lemma_map_entries(raw1, f, id.0@, stored);
            if !is_primary {
                let linked = match lookup(q0.cords, parent.0@) {
                    Some(pc) => table_insert(q0.cords, parent.0@, with_child(pc, id.0@)),
                    None => q0.cords,
                };
                assert(map_entries(raw1, f) == linked);
            }
        }
        id
    }

    /// The cord with the given identifier: the primary cord for "primary", otherwise
    /// the stored cord of that name, if any.
    pub fn get_cord(&self, id: &CordId) -> (r: Option<&Cord>)
        ensures
            id.0@ == primary_name() ==> r == Some(&self.primary_cord),
            id.0@ != primary_name() ==> match r {
                Some(c) => lookup(self.cords@, id.0@) == Some(*c),
                None => lookup(self.cords@, id.0@) is None,
            },
    {
        if id.is_primary() {
            Some(&self.primary_cord)
        } else {
            self.cords.get(id.0.as_str())
        }
    }

    /// The cord with the given identifier, as `get_cord` finds it, to change in place.
    pub fn get_mut_cord(&mut self, id: &CordId) -> (r: Option<&mut Cord>)
        ensures
            final(self).metadata == old(self).metadata,
            final(self).tick_created == old(self).tick_created,
            id.0@ == primary_name() ==> {
                &&& r.is_some()
                &&& *r.unwrap() == old(self).primary_cord
                &&& final(self).primary_cord == *final(r.unwrap())
                &&& final(self).cords == old(self).cords
            },
            id.0@ != primary_name() ==> final(self).primary_cord == old(self).primary_cord,
            id.0@ != primary_name() ==> match lookup(old(self).cords@, id.0@) {
                Some(c) => {
                    &&& r.is_some()
                    &&& *r.unwrap() == c
                    &&& final(self).cords@ == table_insert(
                        old(self).cords@,
                        id.0@,
                        *final(r.unwrap()),
                    )
                },
                None => r.is_none() && final(self).cords == old(self).cords,
            },
    {
        if id.is_primary() {
            Some(&mut self.primary_cord)
        } else {
            self.cords.get_mut(id.0.as_str())
        }
    }

    /// Number of cords: the primary cord and the stored ones.
    pub fn cord_count(&self) -> (n: usize)
        requires
            self.cords@.len() < usize::MAX,
        ensures
            n == 1 + self.cords@.len(),
    {
        1 + self.cords.len()
    }

    /// Maximum depth of the cord hierarchy.
    pub fn depth(&self) -> (d: u32)
        ensures
            d == quipu_depth(self@),
            1 <= d <= 4,
            d >= self@.primary.cord_type.spec_depth(),
            forall|i: int|
                0 <= i < self@.cords.len() ==> d >= #[trigger] self@.cords[i].1.cord_type.spec_depth(),
            d == self@.primary.cord_type.spec_depth() || exists|i: int|
                0 <= i < self@.cords.len() && d == #[trigger] self@.cords[i].1.cord_type.spec_depth(),
    {
        proof {
            lemma_depth_is_maximum(self@);
        }
        let ns = self.cords.names();
        let vs = self.cords.values();
        let ghost cs = self@.cords;
        proof {
            lemma_cord_views(self.cords, ns@, vs@);
            lemma_deepest_bounded(cs);
        }
        let n = vs.len();
        let mut deepest_child: u32 = 0;
        let mut i: usize = 0;
        while i < n
            invariant
                n == vs@.len(),
                n == ns@.len(),
                n == cs.len(),
                i <= n,
                forall|j: int| 0 <= j < n ==> #[trigger] cs[j] == (ns@[j]@, vs@[j]@),
                deepest_child == deepest(cs.take(i as int)),
            decreases n - i,
        {
            assert(cs.take(i + 1).drop_last() =~= cs.take(i as int));
            assert(cs[i as int] == (ns@[i as int]@, vs@[i as int]@));
            let d = vs[i].depth();
            if d > deepest_child {
                deepest_child = d;
            }
            i += 1;
        }
        assert(cs.take(n as int) =~= cs);
        let children: u32 = if n == 0 {
            1
        } else {
            deepest_child
        };
        let p = self.primary_cord.depth();
        if p > children {
            p
        } else {
            children
        }
    }

    /// Number of knots on all cords.
    pub fn total_knots(&self) -> (n: usize)
        requires
            quipu_knots(self@) <= usize::MAX,
        ensures
            n == quipu_knots(self@),
    {
        let ns = self.cords.names();
        let vs = self.cords.values();
        let ghost cs = self@.cords;
        proof {
            lemma_cord_views(self.cords, ns@, vs@);
        }
        let n = vs.len();
        let mut total: usize = self.primary_cord.knot_count();
        let mut i: usize = 0;
        assert(cs.take(0) =~= Seq::<(Seq<char>, CordView)>::empty());
        while i < n
            invariant
                n == vs@.len(),
                n == ns@.len(),
                n == cs.len(),
                i <= n,
                forall|j: int| 0 <= j < n ==> #[trigger] cs[j] == (ns@[j]@, vs@[j]@),
                total == self@.primary.knots.len() + knots_in(cs.take(i as int)),
                quipu_knots(self@) <= usize::MAX,
                cs == self@.cords,
            decreases n - i,
        {
            assert(cs.take(i + 1).drop_last() =~= cs.take(i as int));
            assert(cs[i as int] == (ns@[i as int]@, vs@[i as int]@));
            proof {
                lemma_knots_in_prefix(cs, i + 1);
            }
            total = total + vs[i].knot_count();
            i += 1;
        }
        assert(cs.take(n as int) =~= cs);
        total
    }

    /// Encode multi-dimensional data as a quipu tensor.
    /// Each entry becomes a white Secondary cord named after it, holding the entry's
    /// numbers, added under the primary cord.
    pub fn encode_tensor(&mut self, data: &[(String, Vec<SignedMagnitude>)])
        ensures
            final(self)@ == tensor_encoded(old(self)@, tensor_data(data@)),
            final(self).metadata == old(self).metadata,
    {
        let ghost d = tensor_data(data@);
        let n = data.len();
        let mut i: usize = 0;
        assert(d.take(0) =~= Seq::<(Seq<char>, Seq<SignedMagnitude>)>::empty());
        while i < n
            invariant
                n == data@.len(),
                d == tensor_data(data@),
                i <= n,
                self@ == tensor_encoded(old(self)@, d.take(i as int)),
                self.metadata == old(self).metadata,
            decreases n - i,
        {
            let cord_id = CordId::new(data[i].0.as_str());
            let mut cord = Cord::new(cord_id, "white", CordType::Secondary);
            cord.encode(data[i].1.as_slice());
            assert(cord@ == tensor_cord(d[i as int].0, d[i as int].1));
            self.add_cord(&CordId::new("primary"), cord);
            assert(d.take(i + 1).drop_last() =~= d.take(i as int));
            i += 1;
        }
        assert(d.take(n as int) =~= d);
    }

    /// Decode the quipu back to multi-dimensional data: the readings of the primary cord
    /// under "primary", then those of each stored cord under its name.
    pub fn decode_tensor(&self) -> (r: Vec<(String, Vec<Reading>)>)
        ensures
            named_reading_views(r@) == decoded_tensor(self@),
    {
        let ns = self.cords.names();
        let vs = self.cords.values();
        let ghost cs = self@.cords;
        proof {
            lemma_cord_views(self.cords, ns@, vs@);
        }
        let mut result: Vec<(String, Vec<Reading>)> = Vec::new();
        result.push(("primary".to_owned(), self.primary_cord.decode()));
        let n = vs.len();
        let mut i: usize = 0;
        while i < n
            invariant
                n == vs@.len(),
                n == ns@.len(),
                n == cs.len(),
                i <= n,
                forall|j: int| 0 <= j < n ==> #[trigger] cs[j] == (ns@[j]@, vs@[j]@),
                named_reading_views(result@) =~= decoded_tensor(self@).take(i + 1),
                cs == self@.cords,
            decreases n - i,
        {
            assert(cs[i as int] == (ns@[i as int]@, vs@[i as int]@));
            let entry = (ns[i].clone(), vs[i].decode());
            let ghost before = result@;
            result.push(entry);
            assert(named_reading_views(result@) =~= named_reading_views(before).push(
                (entry.0@, reading_views(entry.1@)),
            ));
            i += 1;
        }
        assert(decoded_tensor(self@).take(n + 1) =~= decoded_tensor(self@));
        result
    }
}

} // verus!
