use vstd::prelude::*;

use crate::cord_id::CordId;
use crate::cord_type::CordType;
use crate::knot::{
    digit_values, encoded_knots, has_sign_marker, knot_views, lemma_decode_encode_value,
    reading_number, Knot, KnotValue, KnotView, SignedMagnitude,
};

verus! {

/// A cord on the quipu, holding knots and forming the hierarchical structure.
#[derive(Debug)]
pub struct Cord {
    pub id: CordId,
    pub knots: Vec<Knot>,
    pub color: String,
    pub cord_type: CordType,
    pub child_cords: Vec<CordId>,
    pub parent_cord: Option<CordId>,
}

/// What a cord holds, with identifiers and text as sequences of characters.
pub struct CordView {
    pub id: Seq<char>,
    pub knots: Seq<KnotView>,
    pub color: Seq<char>,
    pub cord_type: CordType,
    pub child_cords: Seq<Seq<char>>,
    pub parent_cord: Option<Seq<char>>,
}

/// The names of a sequence of identifiers.
pub open spec fn id_names(ids: Seq<CordId>) -> Seq<Seq<char>> {
    ids.map_values(|c: CordId| c.0@)
}

impl View for Cord {
    type V = CordView;

    open spec fn view(&self) -> CordView {
        CordView {
            id: self.id.0@,
            knots: knot_views(self.knots@),
            color: self.color@,
            cord_type: self.cord_type,
            child_cords: id_names(self.child_cords@),
            parent_cord: match self.parent_cord {
                Some(p) => Some(p.0@),
                None => None,
            },
        }
    }
}

impl Clone for Cord {
    fn clone(&self) -> (c: Self)
        ensures
            c@ == self@,
    {
        let knots = self.knots.clone();
        assert(knot_views(knots@) =~= knot_views(self.knots@)) by {
            assert forall|i: int| 0 <= i < knots@.len() implies knots@[i] == self.knots@[i] by {
                assert(vstd::pervasive::cloned::<Knot>(self.knots@[i], knots@[i]));
            }
        }
        let child_cords = self.child_cords.clone();
        assert(id_names(child_cords@) =~= id_names(self.child_cords@)) by {
            assert forall|i: int| 0 <= i < child_cords@.len() implies child_cords@[i]
                == self.child_cords@[i] by {
                assert(vstd::pervasive::cloned::<CordId>(self.child_cords@[i], child_cords@[i]));
            }
        }
        let parent_cord = match &self.parent_cord {
            Some(p) => Some(p.clone()),
            None => None,
        };
        Cord {
            id: self.id.clone(),
            knots,
            color: self.color.clone(),
            cord_type: self.cord_type,
            child_cords,
            parent_cord,
        }
    }
}

/// What the knots at one position of a cord read as.
#[derive(Debug)]
pub enum Reading {
    /// No knot at the position: the value zero.
    Absent,
    /// One knot: its value.
    Single(KnotValue),
    /// Several knots: a digit sequence, read as `Knot::decode_value` reads it.
    Digits(Vec<Knot>),
}

impl Clone for Reading {
    fn clone(&self) -> (r: Self)
        ensures
            r@ == self@,
    {
        match self {
            Reading::Absent => Reading::Absent,
            Reading::Single(v) => Reading::Single(*v),
            Reading::Digits(ks) => {
                let c = ks.clone();
                assert(knot_views(c@) =~= knot_views(ks@)) by {
                    assert forall|i: int| 0 <= i < c@.len() implies c@[i] == ks@[i] by {
                        assert(vstd::pervasive::cloned::<Knot>(ks@[i], c@[i]));
                    }
                }
                Reading::Digits(c)
            },
        }
    }
}

/// A reading, with its knots by their views.
pub enum ReadingView {
    Absent,
    Single(KnotValue),
    Digits(Seq<KnotView>),
}

impl View for Reading {
    type V = ReadingView;

    open spec fn view(&self) -> ReadingView {
        match self {
            Reading::Absent => ReadingView::Absent,
            Reading::Single(v) => ReadingView::Single(*v),
            Reading::Digits(ks) => ReadingView::Digits(knot_views(ks@)),
        }
    }
}

/// The views of a sequence of readings.
pub open spec fn reading_views(rs: Seq<Reading>) -> Seq<ReadingView> {
    rs.map_values(|r: Reading| r@)
}

/// The same knots, all moved to one position.
pub open spec fn at_position(ks: Seq<KnotView>, p: u32) -> Seq<KnotView> {
    ks.map_values(|k: KnotView| KnotView { position: p, ..k })
}

/// The knots that encode a sequence of numbers on a cord: the knots of the i-th number,
/// all at position i, one number after the other.
pub open spec fn encoded_cord(vals: Seq<SignedMagnitude>) -> Seq<KnotView>
    decreases vals.len(),
{
    if vals.len() == 0 {
        Seq::<KnotView>::empty()
    } else {
        encoded_cord(vals.drop_last()) + at_position(
            encoded_knots(vals.last()),
            (vals.len() - 1) as u32,
        )
    }
}

/// The knots at position `p`, in cord order.
pub open spec fn knots_at(ks: Seq<KnotView>, p: u32) -> Seq<KnotView>
    decreases ks.len(),
{
    if ks.len() == 0 {
        Seq::<KnotView>::empty()
    } else if ks.last().position == p {
        knots_at(ks.drop_last(), p).push(ks.last())
    } else {
        knots_at(ks.drop_last(), p)
    }
}

/// The greatest position of any knot; 0 when there is none.
pub open spec fn max_position(ks: Seq<KnotView>) -> u32
    decreases ks.len(),
{
    if ks.len() == 0 {
        0
    } else if ks.last().position > max_position(ks.drop_last()) {
        ks.last().position
    } else {
        max_position(ks.drop_last())
    }
}

/// What a group of knots at one position reads as.
pub open spec fn reading_of(group: Seq<KnotView>) -> ReadingView {
    if group.len() == 0 {
        ReadingView::Absent
    } else if group.len() == 1 {
        ReadingView::Single(group[0].value)
    } else {
        ReadingView::Digits(group)
    }
}

/// The readings of a cord's knots: one per position from 0 to the greatest position;
/// none when the cord has no knot.
pub open spec fn decoded_readings(ks: Seq<KnotView>) -> Seq<ReadingView> {
    if ks.len() == 0 {
        Seq::<ReadingView>::empty()
    } else {
        Seq::new(max_position(ks) as nat + 1, |p: int| reading_of(knots_at(ks, p as u32)))
    }
}

/// The whole number, with its sign, that a reading spells out, if it spells one out:
/// no knot reads as zero, a single knot as its value, several knots as a digit sequence.
pub open spec fn reading_whole(r: ReadingView) -> Option<(bool, nat)> {
    match r {
        ReadingView::Absent => Some((false, 0)),
        ReadingView::Single(v) => reading_number(false, seq![v]),
        ReadingView::Digits(g) => reading_number(has_sign_marker(g), digit_values(g)),
    }
}

/// The value of the first knot at `p` in cord order; zero when there is none.
pub open spec fn value_at_position(ks: Seq<KnotView>, p: u32) -> KnotValue
    decreases ks.len(),
{
    if ks.len() == 0 {
        KnotValue::spec_zero()
    } else if ks[0].position == p {
        ks[0].value
    } else {
        value_at_position(ks.drop_first(), p)
    }
}

proof fn lemma_knots_at_concat(x: Seq<KnotView>, y: Seq<KnotView>, p: u32)
    ensures
        knots_at(x + y, p) == knots_at(x, p) + knots_at(y, p),
    decreases y.len(),
{
    if y.len() == 0 {
        assert(x + y =~= x);
        assert(knots_at(x, p) + knots_at(y, p) =~= knots_at(x, p));
    } else {
        assert((x + y).drop_last() =~= x + y.drop_last());
        assert((x + y).last() == y.last());
        lemma_knots_at_concat(x, y.drop_last(), p);
        if y.last().position == p {
            assert(knots_at(x, p) + knots_at(y, p) =~= (knots_at(x, p) + knots_at(
                y.drop_last(),
                p,
            )).push(y.last()));
        }
    }
}

proof fn lemma_knots_at_none(x: Seq<KnotView>, p: u32)
    requires
        forall|i: int| 0 <= i < x.len() ==> x[i].position != p,
    ensures
        knots_at(x, p) == Seq::<KnotView>::empty(),
    decreases x.len(),
{
    if x.len() > 0 {
        lemma_knots_at_none(x.drop_last(), p);
    }
}

proof fn lemma_knots_at_all(x: Seq<KnotView>, p: u32)
    requires
        forall|i: int| 0 <= i < x.len() ==> x[i].position == p,
    ensures
        knots_at(x, p) == x,
    decreases x.len(),
{
    if x.len() > 0 {
        lemma_knots_at_all(x.drop_last(), p);
        assert(x.drop_last().push(x.last()) =~= x);
    }
}

proof fn lemma_max_position_bound(x: Seq<KnotView>, q: u32)
    requires
        forall|i: int| 0 <= i < x.len() ==> x[i].position <= q,
    ensures
        max_position(x) <= q,
    decreases x.len(),
{
    if x.len() > 0 {
        lemma_max_position_bound(x.drop_last(), q);
    }
}

proof fn lemma_max_position_concat(x: Seq<KnotView>, y: Seq<KnotView>, q: u32)
    requires
        y.len() > 0,
        forall|i: int| 0 <= i < y.len() ==> y[i].position == q,
        max_position(x) <= q,
    ensures
        max_position(x + y) == q,
    decreases y.len(),
{
    assert((x + y).drop_last() =~= x + y.drop_last());
    assert((x + y).last() == y.last());
    if y.len() > 1 {
        lemma_max_position_concat(x, y.drop_last(), q);
    } else {
        assert(x + y.drop_last() =~= x);
    }
}

proof fn lemma_encoded_values(v: SignedMagnitude)
    ensures
        encoded_knots(v).len() >= 1,
        v.negative ==> encoded_knots(v).len() >= 2,
        forall|i: int|
            0 <= i < encoded_knots(v).len() ==> #[trigger] encoded_knots(v)[i].value
                == encoded_knots(v)[i].knot_type.spec_value(),
{
    lemma_decode_encode_value(v);
    let e = encoded_knots(v);
    assert forall|i: int| 0 <= i < e.len() implies #[trigger] e[i].value
        == e[i].knot_type.spec_value() by {
        if v.negative && i == 0 {
            assert(e[i] == crate::knot::sign_knot());
        }
    }
    if !v.negative && e.len() == 0 {
        assert(crate::knot::decimal_digits(v.magnitude).len() >= 1);
    }
}

/// What the knots of one encoded number, moved to any position, read as: the number.
proof fn lemma_reading_of_encoded(v: SignedMagnitude, p: u32)
    ensures
        reading_whole(reading_of(at_position(encoded_knots(v), p)))
            == Some((v.negative, v.magnitude as nat)),
{
    let e = encoded_knots(v);
    let b = at_position(e, p);
    lemma_decode_encode_value(v);
    lemma_encoded_values(v);
    if e.len() == 1 {
        assert(!v.negative);
        assert(!has_sign_marker(e));
        assert(digit_values(e) =~= seq![b[0].value]);
    } else {
        assert(has_sign_marker(b) == has_sign_marker(e));
        assert(digit_values(b) =~= digit_values(e));
    }
}

proof fn lemma_encoded_cord_shape(vals: Seq<SignedMagnitude>)
    requires
        vals.len() <= 0x1_0000_0000,
    ensures
        vals.len() == 0 <==> encoded_cord(vals).len() == 0,
        forall|i: int|
            0 <= i < encoded_cord(vals).len() ==> #[trigger] encoded_cord(vals)[i].position
                < vals.len(),
        vals.len() > 0 ==> max_position(encoded_cord(vals)) == vals.len() - 1,
        forall|p: int|
            0 <= p < vals.len() ==> #[trigger] knots_at(encoded_cord(vals), p as u32)
                == at_position(encoded_knots(vals[p]), p as u32),
    decreases vals.len(),
{
    if vals.len() > 0 {
        let prev = vals.drop_last();
        let last = (vals.len() - 1) as u32;
        let e0 = encoded_cord(prev);
        let b = at_position(encoded_knots(vals.last()), last);
        lemma_encoded_cord_shape(prev);
        lemma_encoded_values(vals.last());
        assert(encoded_cord(vals) == e0 + b);
        assert forall|i: int| 0 <= i < b.len() implies #[trigger] b[i].position == last by {}
        lemma_max_position_bound(e0, last);
        lemma_max_position_concat(e0, b, last);
        assert forall|p: int| 0 <= p < vals.len() implies #[trigger] knots_at(
            encoded_cord(vals),
            p as u32,
        ) == at_position(encoded_knots(vals[p]), p as u32) by {
            lemma_knots_at_concat(e0, b, p as u32);
            if p < vals.len() - 1 {
                assert(prev[p] == vals[p]);
                assert(knots_at(e0, p as u32) == at_position(encoded_knots(prev[p]), p as u32));
                lemma_knots_at_none(b, p as u32);
                assert(knots_at(e0, p as u32) + knots_at(b, p as u32) =~= knots_at(
                    e0,
                    p as u32,
                ));
            } else {
                lemma_knots_at_none(e0, p as u32);
                lemma_knots_at_all(b, p as u32);
                assert(knots_at(e0, p as u32) + knots_at(b, p as u32) =~= b);
            }
        }
    }
}

/// Whether the readings of these knots are one per number, each spelling out its
/// number with its sign.
pub open spec fn reads_back(ks: Seq<KnotView>, vals: Seq<SignedMagnitude>) -> bool {
    &&& decoded_readings(ks).len() == vals.len()
    &&& forall|p: int|
        0 <= p < vals.len() ==> reading_whole(#[trigger] decoded_readings(ks)[p]) == Some(
            (vals[p].negative, vals[p].magnitude as nat),
        )
}

/// Decoding a cord on which a sequence of numbers was encoded gives back one reading
/// per number, and each reading spells out its number with its sign.
pub proof fn lemma_decode_encode_cord(vals: Seq<SignedMagnitude>)
    requires
        vals.len() <= 0x1_0000_0000,
    ensures
        reads_back(encoded_cord(vals), vals),
{
    lemma_encoded_cord_shape(vals);
    let ks = encoded_cord(vals);
    assert forall|p: int| 0 <= p < vals.len() implies reading_whole(
        #[trigger] decoded_readings(ks)[p],
    ) == Some((vals[p].negative, vals[p].magnitude as nat)) by {
        assert(knots_at(ks, p as u32) == at_position(encoded_knots(vals[p]), p as u32));
        lemma_reading_of_encoded(vals[p], p as u32);
    }
}

/// The value read at a position is that of the first knot there, in cord order, and
/// zero only when no knot lies at that position.
pub proof fn lemma_value_at_first(ks: Seq<KnotView>, p: u32)
    ensures
        forall|i: int|
            0 <= i < ks.len() && ks[i].position == p && (forall|j: int|
                0 <= j < i ==> ks[j].position != p) ==> value_at_position(ks, p) == ks[i].value,
        (forall|i: int| 0 <= i < ks.len() ==> ks[i].position != p) ==> value_at_position(ks, p)
            == KnotValue::spec_zero(),
    decreases ks.len(),
{
    if ks.len() > 0 {
        let rest = ks.drop_first();
        lemma_value_at_first(rest, p);
        assert forall|i: int|
            0 <= i < ks.len() && ks[i].position == p && (forall|j: int|
                0 <= j < i ==> ks[j].position != p) implies value_at_position(ks, p)
            == ks[i].value by {
            if i > 0 {
                assert(ks[0].position != p);
                assert(rest[i - 1] == ks[i]);
                assert forall|j: int| 0 <= j < i - 1 implies rest[j].position != p by {
                    assert(rest[j] == ks[j + 1]);
                }
            }
        }
        if forall|i: int| 0 <= i < ks.len() ==> ks[i].position != p {
            assert(ks[0].position != p);
            assert forall|i: int| 0 <= i < rest.len() implies rest[i].position != p by {
                assert(rest[i] == ks[i + 1]);
            }
        }
    }
}

proof fn lemma_knots_at_members(ks: Seq<KnotView>, p: u32)
    ensures
        forall|k: int|
            0 <= k < knots_at(ks, p).len() ==> (#[trigger] knots_at(ks, p)[k]).position == p
                && ks.contains(knots_at(ks, p)[k]),
        (exists|i: int| 0 <= i < ks.len() && ks[i].position == p) ==> knots_at(ks, p).len() >= 1,
        forall|i: int, j: int|
            0 <= i < j < ks.len() && ks[i].position == p && ks[j].position == p ==> knots_at(
                ks,
                p,
            ).len() >= 2,
    decreases ks.len(),
{
    if ks.len() > 0 {
        let r = ks.drop_last();
        let last = ks.len() - 1;
        lemma_knots_at_members(r, p);
        assert forall|k: int| 0 <= k < knots_at(ks, p).len() implies (#[trigger] knots_at(
            ks,
            p,
        )[k]).position == p && ks.contains(knots_at(ks, p)[k]) by {
            if k < knots_at(r, p).len() {
                assert(knots_at(ks, p)[k] == knots_at(r, p)[k]);
                let x = knots_at(r, p)[k];
                assert(r.contains(x));
                let i = choose|i: int| 0 <= i < r.len() && r[i] == x;
                assert(ks[i] == x);
            } else {
                assert(knots_at(ks, p)[k] == ks[last]);
            }
        }
        if exists|i: int| 0 <= i < ks.len() && ks[i].position == p {
            let i = choose|i: int| 0 <= i < ks.len() && ks[i].position == p;
            if i < last {
                assert(r[i] == ks[i]);
            }
        }
        assert forall|i: int, j: int|
            0 <= i < j < ks.len() && ks[i].position == p && ks[j].position == p implies knots_at(
            ks,
            p,
        ).len() >= 2 by {
            assert(r[i] == ks[i]);
            if j < last {
                assert(r[j] == ks[j]);
            }
        }
    }
}

proof fn lemma_max_position(ks: Seq<KnotView>)
    ensures
        forall|i: int| 0 <= i < ks.len() ==> (#[trigger] ks[i]).position <= max_position(ks),
        ks.len() > 0 ==> exists|i: int| 0 <= i < ks.len() && ks[i].position == max_position(ks),
    decreases ks.len(),
{
    if ks.len() > 0 {
        let r = ks.drop_last();
        lemma_max_position(r);
        assert forall|i: int| 0 <= i < ks.len() implies (#[trigger] ks[i]).position
            <= max_position(ks) by {
            if i < ks.len() - 1 {
                assert(r[i] == ks[i]);
            }
        }
        if max_position(ks) != ks.last().position {
            let i = choose|i: int| 0 <= i < r.len() && r[i].position == max_position(r);
            assert(r[i] == ks[i]);
        }
    }
}

/// Decoding a cord reads one position after another, from 0 to the greatest position of
/// a knot: a position with no knot reads as absent, one with a single knot as that
/// knot's value, and one with several knots as a digit group made of exactly the knots
/// found there.
pub proof fn lemma_decoded_readings(ks: Seq<KnotView>)
    ensures
        ks.len() == 0 ==> decoded_readings(ks).len() == 0,
        ks.len() > 0 ==> {
            &&& forall|i: int|
                0 <= i < ks.len() ==> (#[trigger] ks[i]).position < decoded_readings(ks).len()
            &&& exists|i: int|
                0 <= i < ks.len() && ks[i].position == decoded_readings(ks).len() - 1
        },
        forall|p: int|
            0 <= p < decoded_readings(ks).len() ==> ((#[trigger] decoded_readings(ks)[p]
                is Absent) <==> (forall|i: int| 0 <= i < ks.len() ==> ks[i].position != p)),
        forall|p: int|
            0 <= p < decoded_readings(ks).len() ==> match #[trigger] decoded_readings(ks)[p] {
                ReadingView::Single(v) => exists|i: int|
                    0 <= i < ks.len() && ks[i].position == p && ks[i].value == v && (forall|
                        j: int,
                    | 0 <= j < ks.len() && j != i ==> ks[j].position != p),
                ReadingView::Digits(g) => g.len() >= 2 && forall|k: int|
                    0 <= k < g.len() ==> g[k].position == p && ks.contains(g[k]),
                ReadingView::Absent => true,
            },
{
    lemma_max_position(ks);
    assert forall|p: int| 0 <= p < decoded_readings(ks).len() implies ((
    #[trigger] decoded_readings(ks)[p] is Absent) <==> (forall|i: int|
        0 <= i < ks.len() ==> ks[i].position != p)) && match decoded_readings(ks)[p] {
        ReadingView::Single(v) => exists|i: int|
            0 <= i < ks.len() && ks[i].position == p && ks[i].value == v && (forall|j: int|
                0 <= j < ks.len() && j != i ==> ks[j].position != p),
        ReadingView::Digits(g) => g.len() >= 2 && forall|k: int|
            0 <= k < g.len() ==> g[k].position == p && ks.contains(g[k]),
        ReadingView::Absent => true,
    } by {
        let q = p as u32;
        let g = knots_at(ks, q);
        lemma_knots_at_members(ks, q);
        if forall|i: int| 0 <= i < ks.len() ==> ks[i].position != p {
            lemma_knots_at_none(ks, q);
        }
        if g.len() == 1 {
            assert(ks.contains(g[0]));
            let i = choose|i: int| 0 <= i < ks.len() && ks[i] == g[0];
            assert forall|j: int| 0 <= j < ks.len() && j != i implies ks[j].position != p by {}
        }
    }
}

fn knots_at_exec(knots: &Vec<Knot>, p: u32) -> (group: Vec<Knot>)
    ensures
        knot_views(group@) == knots_at(knot_views(knots@), p),
{
    let ghost ks = knot_views(knots@);
    let mut group: Vec<Knot> = Vec::new();
    let n = knots.len();
    let mut i: usize = 0;
    while i < n
        invariant
            n == knots@.len(),
            i <= n,
            ks == knot_views(knots@),
            knot_views(group@) =~= knots_at(ks.take(i as int), p),
        decreases n - i,
    {
        assert(ks.take(i + 1).drop_last() =~= ks.take(i as int));
        if knots[i].position == p {
            let k = knots[i].clone();
            let ghost before = group@;
            group.push(k);
            assert(knot_views(group@) =~= knot_views(before).push(k@));
        }
        i += 1;
    }
    assert(ks.take(n as int) =~= ks);
    group
}

impl Cord {
    /// A cord with no knots, children or parent.
    pub fn new(id: CordId, color: &str, cord_type: CordType) -> (c: Cord)
        ensures
            c@ == (CordView {
                id: id.0@,
                knots: Seq::empty(),
                color: color@,
                cord_type,
                child_cords: Seq::empty(),
                parent_cord: None,
            }),
    {
        let c = Cord {
            id,
            knots: Vec::new(),
            color: color.to_owned(),
            cord_type,
            child_cords: Vec::new(),
            parent_cord: None,
        };
        assert(c@.knots =~= Seq::<KnotView>::empty());
        assert(c@.child_cords =~= Seq::<Seq<char>>::empty());
        c
    }

    /// Append a knot.
    pub fn add_knot(&mut self, knot: Knot)
        ensures
            final(self)@ == (CordView { knots: old(self)@.knots.push(knot@), ..old(self)@ }),
    {
        let ghost k = knot@;
        self.knots.push(knot);
        assert(knot_views(self.knots@) =~= old(self)@.knots.push(k));
    }

    /// Get the value of the knot at the given position: the first knot there, or zero.
    pub fn value_at(&self, position: u32) -> (v: KnotValue)
        ensures
            v == value_at_position(self@.knots, position),
            forall|i: int|
                0 <= i < self@.knots.len() && self@.knots[i].position == position && (forall|
                    j: int,
                | 0 <= j < i ==> self@.knots[j].position != position) ==> v
                    == self@.knots[i].value,
            (forall|i: int| 0 <= i < self@.knots.len() ==> self@.knots[i].position != position)
                ==> v == KnotValue::spec_zero(),
    {
        proof {
            lemma_value_at_first(self@.knots, position);
        }
        let ghost ks = self@.knots;
        let n = self.knots.len();
        let mut i: usize = 0;
        assert(ks.skip(0) =~= ks);
        while i < n
            invariant
                n == ks.len(),
                i <= n,
                ks == knot_views(self.knots@),
                value_at_position(ks, position) == value_at_position(ks.skip(i as int), position),
            decreases n - i,
        {
            assert(ks.skip(i as int).drop_first() =~= ks.skip(i + 1));
            if self.knots[i].position == position {
                proof {
                    lemma_value_at_first(ks, position);
                }
                return self.knots[i].value;
            }
            i += 1;
        }
        KnotValue::digit(0)
    }

    /// Encode a sequence of numbers as knots on this cord, replacing its knots: the
    /// knots of the i-th number, as `Knot::encode_value` gives them, all at position i.
    pub fn encode(&mut self, values: &[SignedMagnitude])
        ensures
            final(self)@ == (CordView { knots: encoded_cord(values@), ..old(self)@ }),
    {
        let mut knots: Vec<Knot> = Vec::new();
        let n = values.len();
        let mut i: usize = 0;
        assert(values@.take(0) =~= Seq::<SignedMagnitude>::empty());
        while i < n
            invariant
                n == values@.len(),
                i <= n,
                knot_views(knots@) =~= encoded_cord(values@.take(i as int)),
            decreases n - i,
        {
            let ks = Knot::encode_value(values[i]);
            let m = ks.len();
            let p = i as u32;
            let mut j: usize = 0;
            while j < m
                invariant
                    n == values@.len(),
                    i < n,
                    p == i as u32,
                    m == ks@.len(),
                    j <= m,
                    knot_views(knots@) =~= encoded_cord(values@.take(i as int)) + at_position(
                        knot_views(ks@).take(j as int),
                        p,
                    ),
                decreases m - j,
            {
                let mut k = ks[j].clone();
                k.position = p;
                let ghost before = knots@;
                knots.push(k);
                assert(knot_views(knots@) =~= knot_views(before).push(k@));
                assert(knot_views(ks@).take(j + 1) =~= knot_views(ks@).take(j as int).push(
                    ks@[j as int]@,
                ));
                j += 1;
            }
            assert(knot_views(ks@).take(m as int) =~= knot_views(ks@));
            assert(values@.take(i + 1).drop_last() =~= values@.take(i as int));
            i += 1;
        }
        assert(values@.take(n as int) =~= values@);
        self.knots = knots;
    }

    /// Decode all knots back, position by position: for each position from 0 to the
    /// greatest position of a knot, what the knots there read as. No readings when the
    /// cord has no knot.
    pub fn decode(&self) -> (readings: Vec<Reading>)
        ensures
            reading_views(readings@) == decoded_readings(self@.knots),
    {
        let ghost ks = self@.knots;
        let n = self.knots.len();
        if n == 0 {
            let empty: Vec<Reading> = Vec::new();
            assert(reading_views(empty@) =~= Seq::<ReadingView>::empty());
            return empty;
        }
        let mut max_pos: u32 = 0;
        let mut i: usize = 0;
        while i < n
            invariant
                n == ks.len(),
                i <= n,
                ks == knot_views(self.knots@),
                max_pos == max_position(ks.take(i as int)),
            decreases n - i,
        {
            assert(ks.take(i + 1).drop_last() =~= ks.take(i as int));
            if self.knots[i].position > max_pos {
                max_pos = self.knots[i].position;
            }
            i += 1;
        }
        assert(ks.take(n as int) =~= ks);
        let mut readings: Vec<Reading> = Vec::new();
        let mut pos: u64 = 0;
        while pos <= max_pos as u64
            invariant
                ks == knot_views(self.knots@),
                max_pos == max_position(ks),
                pos <= max_pos as u64 + 1,
                reading_views(readings@) =~= Seq::new(
                    pos as nat,
                    |q: int| reading_of(knots_at(ks, q as u32)),
                ),
            decreases max_pos as u64 + 1 - pos,
        {
            let group = knots_at_exec(&self.knots, pos as u32);
            let r = if group.len() == 0 {
                Reading::Absent
            } else if group.len() == 1 {
                Reading::Single(group[0].value)
            } else {
                Reading::Digits(group)
            };
            let ghost before = readings@;
            readings.push(r);
            assert(reading_views(readings@) =~= reading_views(before).push(r@));
            pos += 1;
        }
        readings
    }

    /// Number of knots.
    pub fn knot_count(&self) -> (n: usize)
        ensures
            n == self@.knots.len(),
    {
        self.knots.len()
    }

    /// Depth of this cord in the hierarchy.
    pub fn depth(&self) -> (d: u32)
        ensures
            d == self.cord_type.spec_depth(),
    {
        self.cord_type.depth()
    }
}

} // verus!
