use vstd::prelude::*;

verus! {

/// The number a knot stands for, held as the IEEE 754 binary64 bit pattern of that
/// number. The library stores, compares and moves these values but never does
/// arithmetic on them; whole digits are recognised by their exact encodings.
#[derive(Debug, Clone, Copy)]
pub struct KnotValue(pub u64);

impl KnotValue {
    /// The encoding of the whole number `d`, for a decimal digit `d`.
    pub open spec fn spec_digit(d: u64) -> KnotValue {
        if d == 0 {
            KnotValue(0x0000_0000_0000_0000)
        } else if d == 1 {
            KnotValue(0x3FF0_0000_0000_0000)
        } else if d == 2 {
            KnotValue(0x4000_0000_0000_0000)
        } else if d == 3 {
            KnotValue(0x4008_0000_0000_0000)
        } else if d == 4 {
            KnotValue(0x4010_0000_0000_0000)
        } else if d == 5 {
            KnotValue(0x4014_0000_0000_0000)
        } else if d == 6 {
            KnotValue(0x4018_0000_0000_0000)
        } else if d == 7 {
            KnotValue(0x401C_0000_0000_0000)
        } else if d == 8 {
            KnotValue(0x4020_0000_0000_0000)
        } else {
            KnotValue(0x4022_0000_0000_0000)
        }
    }

    /// The decimal digit this value encodes, if it encodes one.
    pub open spec fn spec_digit_of(self) -> Option<u64> {
        if exists|d: u64| d < 10 && #[trigger] KnotValue::spec_digit(d) == self {
            Some(choose|d: u64| d < 10 && #[trigger] KnotValue::spec_digit(d) == self)
        } else {
            None
        }
    }

    /// The value zero.
    pub open spec fn spec_zero() -> KnotValue {
        KnotValue::spec_digit(0)
    }

    /// The encoding of the whole number `d`, for a decimal digit `d`.
    pub fn digit(d: u64) -> (v: KnotValue)
        requires
            d < 10,
        ensures
            v == KnotValue::spec_digit(d),
    {
        if d == 0 {
            KnotValue(0x0000_0000_0000_0000)
        } else if d == 1 {
            KnotValue(0x3FF0_0000_0000_0000)
        } else if d == 2 {
            KnotValue(0x4000_0000_0000_0000)
        } else if d == 3 {
            KnotValue(0x4008_0000_0000_0000)
        } else if d == 4 {
            KnotValue(0x4010_0000_0000_0000)
        } else if d == 5 {
            KnotValue(0x4014_0000_0000_0000)
        } else if d == 6 {
            KnotValue(0x4018_0000_0000_0000)
        } else if d == 7 {
            KnotValue(0x401C_0000_0000_0000)
        } else if d == 8 {
            KnotValue(0x4020_0000_0000_0000)
        } else {
            KnotValue(0x4022_0000_0000_0000)
        }
    }
}

impl KnotValue {
    /// Whether the value is a NaN: all exponent bits set and a nonzero fraction.
    pub open spec fn spec_is_nan(self) -> bool {
        &&& (self.0 & 0x7FF0_0000_0000_0000u64) == 0x7FF0_0000_0000_0000u64
        &&& (self.0 & 0x000F_FFFF_FFFF_FFFFu64) != 0
    }

    /// Whether the value is zero, of either sign.
    pub open spec fn spec_is_zero(self) -> bool {
        (self.0 & 0x7FFF_FFFF_FFFF_FFFFu64) == 0
    }

    /// Numeric equality of binary64 values: a NaN equals nothing, the two zeros are
    /// equal, and otherwise equal numbers have equal encodings.
    pub open spec fn same_number(self, other: KnotValue) -> bool {
        &&& !self.spec_is_nan()
        &&& !other.spec_is_nan()
        &&& (self.0 == other.0 || (self.spec_is_zero() && other.spec_is_zero()))
    }
}

impl PartialEq for KnotValue {
    fn eq(&self, other: &Self) -> (r: bool) {
        let a = self.0;
        let b = other.0;
        let a_nan = (a & 0x7FF0_0000_0000_0000u64) == 0x7FF0_0000_0000_0000u64 && (a
            & 0x000F_FFFF_FFFF_FFFFu64) != 0;
        let b_nan = (b & 0x7FF0_0000_0000_0000u64) == 0x7FF0_0000_0000_0000u64 && (b
            & 0x000F_FFFF_FFFF_FFFFu64) != 0;
        let zeros = (a & 0x7FFF_FFFF_FFFF_FFFFu64) == 0 && (b & 0x7FFF_FFFF_FFFF_FFFFu64) == 0;
        !a_nan && !b_nan && (a == b || zeros)
    }
}

impl vstd::std_specs::cmp::PartialEqSpecImpl for KnotValue {
    open spec fn obeys_eq_spec() -> bool {
        true
    }

    open spec fn eq_spec(&self, other: &Self) -> bool {
        self.same_number(*other)
    }
}

/// The encoding of a decimal digit is read back as that digit.
pub proof fn lemma_digit_of_digit(d: u64)
    requires
        d < 10,
    ensures
        KnotValue::spec_digit(d).spec_digit_of() == Some(d),
{
    assert(KnotValue::spec_digit(d) == KnotValue::spec_digit(d));
    let e = choose|e: u64| e < 10 && #[trigger] KnotValue::spec_digit(e) == KnotValue::spec_digit(d);
    assert(e == d);
}

/// The type of knot, each encoding a value.
#[derive(Debug, Clone, Copy)]
pub enum KnotType {
    /// Single knot encoding value 1.
    Single,
    /// Double knot encoding value 2.
    Double,
    /// Triple knot encoding value 3.
    Triple,
    /// Figure-eight knot encoding value 0.
    FigureEight,
    /// Long knot encoding a specific value.
    LongKnot(KnotValue),
}

impl KnotType {
    /// The value a knot of this type encodes.
    pub open spec fn spec_value(self) -> KnotValue {
        match self {
            KnotType::Single => KnotValue::spec_digit(1),
            KnotType::Double => KnotValue::spec_digit(2),
            KnotType::Triple => KnotValue::spec_digit(3),
            KnotType::FigureEight => KnotValue::spec_digit(0),
            KnotType::LongKnot(v) => v,
        }
    }

    /// Return the numeric value of this knot type.
    pub fn value(&self) -> (v: KnotValue)
        ensures
            v == self.spec_value(),
    {
        match self {
            KnotType::Single => KnotValue::digit(1),
            KnotType::Double => KnotValue::digit(2),
            KnotType::Triple => KnotValue::digit(3),
            KnotType::FigureEight => KnotValue::digit(0),
            KnotType::LongKnot(v) => *v,
        }
    }
}

impl KnotType {
    /// Equality of knot types: the same kind, and for long knots numerically equal values.
    pub open spec fn same_type(self, other: KnotType) -> bool {
        match (self, other) {
            (KnotType::Single, KnotType::Single) => true,
            (KnotType::Double, KnotType::Double) => true,
            (KnotType::Triple, KnotType::Triple) => true,
            (KnotType::FigureEight, KnotType::FigureEight) => true,
            (KnotType::LongKnot(a), KnotType::LongKnot(b)) => a.same_number(b),
            _ => false,
        }
    }
}

impl PartialEq for KnotType {
    fn eq(&self, other: &Self) -> (r: bool) {
        match (self, other) {
            (KnotType::Single, KnotType::Single) => true,
            (KnotType::Double, KnotType::Double) => true,
            (KnotType::Triple, KnotType::Triple) => true,
            (KnotType::FigureEight, KnotType::FigureEight) => true,
            (KnotType::LongKnot(a), KnotType::LongKnot(b)) => *a == *b,
            _ => false,
        }
    }
}

impl vstd::std_specs::cmp::PartialEqSpecImpl for KnotType {
    open spec fn obeys_eq_spec() -> bool {
        true
    }

    open spec fn eq_spec(&self, other: &Self) -> bool {
        self.same_type(*other)
    }
}

/// A knot on a cord at a given position.
#[derive(Debug)]
pub struct Knot {
    pub knot_type: KnotType,
    pub position: u32,
    pub value: KnotValue,
    pub label: Option<String>,
}

/// What a knot holds, with its label as a sequence of characters.
pub struct KnotView {
    pub knot_type: KnotType,
    pub position: u32,
    pub value: KnotValue,
    pub label: Option<Seq<char>>,
}

impl View for Knot {
    type V = KnotView;

    open spec fn view(&self) -> KnotView {
        KnotView {
            knot_type: self.knot_type,
            position: self.position,
            value: self.value,
            label: match self.label {
                Some(l) => Some(l@),
                None => None,
            },
        }
    }
}

/// The views of a sequence of knots.
pub open spec fn knot_views(ks: Seq<Knot>) -> Seq<KnotView> {
    ks.map_values(|k: Knot| k@)
}

impl Knot {
    /// Equality of knots: equal types, positions and values, as numbers, and equal labels.
    pub open spec fn same_knot(self, other: Knot) -> bool {
        &&& self.knot_type.same_type(other.knot_type)
        &&& self.position == other.position
        &&& self.value.same_number(other.value)
        &&& self@.label == other@.label
    }
}

impl PartialEq for Knot {
    fn eq(&self, other: &Self) -> (r: bool) {
        let labels = match (&self.label, &other.label) {
            (Some(a), Some(b)) => *a == *b,
            (None, None) => true,
            _ => false,
        };
        self.knot_type == other.knot_type && self.position == other.position && self.value
            == other.value && labels
    }
}

impl vstd::std_specs::cmp::PartialEqSpecImpl for Knot {
    open spec fn obeys_eq_spec() -> bool {
        true
    }

    open spec fn eq_spec(&self, other: &Self) -> bool {
        self.same_knot(*other)
    }
}

impl Clone for Knot {
    fn clone(&self) -> (k: Self)
        ensures
            k == *self,
    {
        let label = match &self.label {
            Some(l) => Some(l.clone()),
            None => None,
        };
        Knot { knot_type: self.knot_type, position: self.position, value: self.value, label }
    }
}

impl Knot {
    /// A knot of the given type at the given position, carrying the type's value and no label.
    pub fn new(knot_type: KnotType, position: u32) -> (k: Knot)
        ensures
            k@ == (KnotView { knot_type, position, value: knot_type.spec_value(), label: None }),
    {
        let value = knot_type.value();
        Knot { knot_type, position, value, label: None }
    }

    /// The same knot with its label set.
    pub fn with_label(self, label: &str) -> (k: Knot)
        ensures
            k@ == (KnotView { label: Some(label@), ..self@ }),
    {
        let mut k = self;
        k.label = Some(label.to_owned());
        k
    }
}

/// A number reduced to what the knot encoding keeps of it: its sign and the whole
/// part of its magnitude.
#[derive(Debug, Clone, Copy, PartialEq, Eq, Structural)]
pub struct SignedMagnitude {
    pub negative: bool,
    pub magnitude: u64,
}

/// The decimal digits of `n`, most significant first; none for 0.
pub open spec fn significant_digits(n: u64) -> Seq<u64>
    decreases n,
{
    if n == 0 {
        Seq::<u64>::empty()
    } else {
        significant_digits(n / 10).push(n % 10)
    }
}

/// The decimal digits of `n`, most significant first; a single 0 for 0.
pub open spec fn decimal_digits(n: u64) -> Seq<u64> {
    if n == 0 {
        seq![0u64]
    } else {
        significant_digits(n)
    }
}

/// The knot type that encodes a decimal digit: 0 a figure-eight, 1 to 3 the single,
/// double and triple knots, 4 to 9 a long knot carrying the digit.
pub open spec fn digit_knot_type(d: u64) -> KnotType {
    if d == 0 {
        KnotType::FigureEight
    } else if d == 1 {
        KnotType::Single
    } else if d == 2 {
        KnotType::Double
    } else if d == 3 {
        KnotType::Triple
    } else {
        KnotType::LongKnot(KnotValue::spec_digit(d))
    }
}

/// The unlabelled knot for digit `d` at `position`.
pub open spec fn digit_knot(d: u64, position: u32) -> KnotView {
    KnotView {
        knot_type: digit_knot_type(d),
        position,
        value: digit_knot_type(d).spec_value(),
        label: None,
    }
}

/// The knot that marks a negative number: a figure-eight at position 0 labelled "negative".
pub open spec fn sign_knot() -> KnotView {
    KnotView {
        knot_type: KnotType::FigureEight,
        position: 0,
        value: KnotValue::spec_zero(),
        label: Some("negative"@),
    }
}

/// The knots that encode a number: for a negative number the sign knot first, then one
/// knot per decimal digit, most significant first, at successive positions after it.
pub open spec fn encoded_knots(v: SignedMagnitude) -> Seq<KnotView> {
    let ds = decimal_digits(v.magnitude);
    let offset: int = if v.negative {
        1
    } else {
        0
    };
    let body = Seq::new(ds.len(), |i: int| digit_knot(ds[i], (i + offset) as u32));
    if v.negative {
        seq![sign_knot()] + body
    } else {
        body
    }
}

/// Whether a knot sequence opens with the sign knot: more than one knot, the first a
/// figure-eight labelled "negative".
pub open spec fn has_sign_marker(ks: Seq<KnotView>) -> bool {
    &&& ks.len() > 1
    &&& ks[0].knot_type == KnotType::FigureEight
    &&& ks[0].label == Some("negative"@)
}

/// The digit values a knot sequence holds: the values of the knot types after the sign
/// marker, if there is one, in order.
pub open spec fn digit_values(ks: Seq<KnotView>) -> Seq<KnotValue> {
    let start: int = if has_sign_marker(ks) {
        1
    } else {
        0
    };
    ks.skip(start).map_values(|k: KnotView| k.knot_type.spec_value())
}

/// The whole number that a sequence of digit values spells out in base 10, most
/// significant first, if every value is a decimal digit.
pub open spec fn whole_number(vals: Seq<KnotValue>) -> Option<nat>
    decreases vals.len(),
{
    if vals.len() == 0 {
        Some(0)
    } else {
        match (whole_number(vals.drop_last()), vals.last().spec_digit_of()) {
            (Some(high), Some(d)) => Some(high * 10 + d as nat),
            _ => None,
        }
    }
}

/// What a knot sequence reads as before any arithmetic: its sign and its digit values.
pub struct DigitReading {
    pub negative: bool,
    pub digits: Vec<KnotValue>,
}

/// The spelled-out whole number of a reading, with its sign.
pub open spec fn reading_number(negative: bool, digits: Seq<KnotValue>) -> Option<(bool, nat)> {
    match whole_number(digits) {
        Some(n) => Some((negative, n)),
        None => None,
    }
}

proof fn lemma_significant_digits_bounded(n: u64)
    ensures
        forall|i: int| 0 <= i < significant_digits(n).len() ==> significant_digits(n)[i] < 10,
    decreases n,
{
    if n > 0 {
        lemma_significant_digits_bounded(n / 10);
        assert(significant_digits(n) == significant_digits(n / 10).push(n % 10));
    }
}

spec fn pow10(k: nat) -> nat
    decreases k,
{
    if k == 0 {
        1
    } else {
        10 * pow10((k - 1) as nat)
    }
}

proof fn lemma_significant_digits_len(n: u64, k: nat)
    requires
        n < pow10(k),
    ensures
        significant_digits(n).len() <= k,
    decreases k,
{
    if n > 0 {
        assert(k > 0);
        assert(n / 10 < pow10((k - 1) as nat));
        lemma_significant_digits_len(n / 10, (k - 1) as nat);
    }
}

proof fn lemma_decimal_digits_short(n: u64)
    ensures
        1 <= decimal_digits(n).len() <= 20,
        forall|i: int| 0 <= i < decimal_digits(n).len() ==> decimal_digits(n)[i] < 10,
{
    reveal_with_fuel(pow10, 21);
    assert(pow10(20) == 100000000000000000000);
    lemma_significant_digits_len(n, 20);
    lemma_significant_digits_bounded(n);
    if n > 0 {
        assert(significant_digits(n).len() > 0);
    }
}

/// The encodings of a sequence of decimal digits.
pub open spec fn digit_encodings(ds: Seq<u64>) -> Seq<KnotValue> {
    ds.map_values(|d: u64| KnotValue::spec_digit(d))
}

/// The digit values of a number's decimal digits spell out the number.
proof fn lemma_whole_number_of_digits(n: u64)
    ensures
        whole_number(digit_encodings(significant_digits(n))) == Some(n as nat),
    decreases n,
{
    if n > 0 {
        lemma_whole_number_of_digits(n / 10);
        let s = digit_encodings(significant_digits(n));
        assert(s.drop_last() =~= digit_encodings(significant_digits(n / 10)));
        assert(s.last() == KnotValue::spec_digit(n % 10));
        lemma_digit_of_digit(n % 10);
    } else {
        assert(digit_encodings(significant_digits(n)) =~= Seq::<KnotValue>::empty());
    }
}

fn knot_type_for_digit(d: u64) -> (kt: KnotType)
    requires
        d < 10,
    ensures
        kt == digit_knot_type(d),
{
    if d == 0 {
        KnotType::FigureEight
    } else if d == 1 {
        KnotType::Single
    } else if d == 2 {
        KnotType::Double
    } else if d == 3 {
        KnotType::Triple
    } else {
        KnotType::LongKnot(KnotValue::digit(d))
    }
}

fn is_sign_marker(k: &Knot) -> (b: bool)
    ensures
        b == (k.knot_type == KnotType::FigureEight && k@.label == Some("negative"@)),
{
    match k.knot_type {
        KnotType::FigureEight => match &k.label {
            Some(l) => *l == "negative".to_owned(),
            None => false,
        },
        _ => false,
    }
}

impl Knot {
    /// Encode a number as a sequence of knots using Inca base-10 positional encoding.
    ///
    /// Each decimal digit is encoded at successive positions. The digit determines
    /// the knot type. Digit 0 → FigureEight, 1 → Single, 2 → Double, 3 → Triple,
    /// 4–9 → LongKnot(digit). A negative number is preceded by a figure-eight knot at
    /// position 0 labelled "negative".
    pub fn encode_value(val: SignedMagnitude) -> (knots: Vec<Knot>)
        ensures
            knot_views(knots@) == encoded_knots(val),
    {
        let ghost ds = decimal_digits(val.magnitude);
        proof {
            lemma_decimal_digits_short(val.magnitude);
        }
        // Digits, least significant first.
        let mut digits: Vec<u64> = Vec::new();
        if val.magnitude == 0 {
            digits.push(0);
        } else {
            let mut n = val.magnitude;
            while n > 0
                invariant
                    significant_digits(val.magnitude) =~= significant_digits(n) + Seq::new(
                        digits@.len(),
                        |j: int| digits@[digits@.len() - 1 - j],
                    ),
                    forall|j: int| 0 <= j < digits@.len() ==> digits@[j] < 10,
                decreases n,
            {
                let ghost before = digits@;
                digits.push(n % 10);
                assert(significant_digits(n) == significant_digits(n / 10).push(n % 10));
                assert(Seq::new(digits@.len(), |j: int| digits@[digits@.len() - 1 - j]) =~= seq![
                    n % 10,
                ] + Seq::new(before.len(), |j: int| before[before.len() - 1 - j]));
                n = n / 10;
            }
        }
        assert(ds =~= Seq::new(digits@.len(), |j: int| digits@[digits@.len() - 1 - j]));

        let mut knots: Vec<Knot> = Vec::new();
        let offset: u32 = if val.negative {
            1
        } else {
            0
        };
        let ghost prefix: Seq<KnotView> = if val.negative {
            seq![sign_knot()]
        } else {
            Seq::<KnotView>::empty()
        };
        if val.negative {
            let sign = Knot::new(KnotType::FigureEight, 0).with_label("negative");
            knots.push(sign);
        }
        assert(knot_views(knots@) =~= prefix);
        let len = digits.len();
        let mut i: usize = 0;
        while i < len
            invariant
                len == digits@.len(),
                len == ds.len(),
                len <= 20,
                i <= len,
                offset as int == (if val.negative {
                    1int
                } else {
                    0int
                }),
                forall|j: int| 0 <= j < len ==> digits@[j] < 10,
                forall|j: int| 0 <= j < len ==> ds[j] == digits@[len - 1 - j],
                knot_views(knots@) =~= prefix + Seq::new(
                    i as nat,
                    |j: int| digit_knot(ds[j], (j + offset) as u32),
                ),
            decreases len - i,
        {
            let d = digits[len - 1 - i];
            let kt = knot_type_for_digit(d);
            let k = Knot::new(kt, (i as u32) + offset);
            let ghost before = knots@;
            knots.push(k);
            assert(knot_views(knots@) =~= knot_views(before).push(k@));
            i += 1;
        }
        knots
    }

    /// Read a sequence of knots back: whether it opens with the sign marker, and the
    /// values of the knot types of the digit knots after it, most significant first.
    /// An empty sequence reads as no digits.
    pub fn decode_value(knots: &[Knot]) -> (r: DigitReading)
        ensures
            r.negative == has_sign_marker(knot_views(knots@)),
            r.digits@ == digit_values(knot_views(knots@)),
    {
        let ghost ks = knot_views(knots@);
        let n = knots.len();
        let negative = n > 1 && is_sign_marker(&knots[0]);
        let start: usize = if negative {
            1
        } else {
            0
        };
        assert(negative == has_sign_marker(ks));
        let mut digits: Vec<KnotValue> = Vec::new();
        let mut i = start;
        while i < n
            invariant
                n == knots@.len(),
                start <= i <= n,
                ks == knot_views(knots@),
                digits@ =~= ks.skip(start as int).take(i - start).map_values(
                    |k: KnotView| k.knot_type.spec_value(),
                ),
            decreases n - i,
        {
            digits.push(knots[i].knot_type.value());
            i += 1;
        }
        assert(ks.skip(start as int).take(n - start) =~= ks.skip(start as int));
        DigitReading { negative, digits }
    }
}

/// The knots that encode a number sit at positions 0, 1, 2, … in order, each carrying
/// its type's value; a negative number's first knot is a figure-eight labelled
/// "negative", and every other knot is unlabelled; there is at least one digit knot.
pub proof fn lemma_encoded_shape(v: SignedMagnitude)
    ensures
        encoded_knots(v).len() >= (if v.negative {
            2int
        } else {
            1int
        }),
        forall|i: int|
            0 <= i < encoded_knots(v).len() ==> #[trigger] encoded_knots(v)[i].position == i,
        forall|i: int|
            0 <= i < encoded_knots(v).len() ==> #[trigger] encoded_knots(v)[i].value
                == encoded_knots(v)[i].knot_type.spec_value(),
        v.negative ==> encoded_knots(v)[0].knot_type == KnotType::FigureEight
            && encoded_knots(v)[0].label == Some("negative"@),
        forall|i: int|
            0 <= i < encoded_knots(v).len() && (!v.negative || i >= 1)
                ==> #[trigger] encoded_knots(v)[i].label is None,
        forall|i: int|
            0 <= i < encoded_knots(v).len() && (!v.negative || i >= 1) ==> {
                let k = #[trigger] encoded_knots(v)[i];
                &&& k.value.spec_digit_of() is Some
                &&& k.value.spec_digit_of() == Some(0u64) ==> k.knot_type == KnotType::FigureEight
                &&& k.value.spec_digit_of() == Some(1u64) ==> k.knot_type == KnotType::Single
                &&& k.value.spec_digit_of() == Some(2u64) ==> k.knot_type == KnotType::Double
                &&& k.value.spec_digit_of() == Some(3u64) ==> k.knot_type == KnotType::Triple
                &&& k.value.spec_digit_of().unwrap() >= 4 ==> k.knot_type is LongKnot
            },
{
    let ks = encoded_knots(v);
    lemma_decimal_digits_short(v.magnitude);
    assert forall|i: int| 0 <= i < ks.len() implies #[trigger] ks[i].position == i by {
        if v.negative && i == 0 {
            assert(ks[0] == sign_knot());
        }
    }
    assert forall|i: int| 0 <= i < ks.len() implies #[trigger] ks[i].value
        == ks[i].knot_type.spec_value() by {
        if v.negative && i == 0 {
            assert(ks[0] == sign_knot());
        }
    }    let ds = decimal_digits(v.magnitude);
    let offset: int = if v.negative {
        1
    } else {
        0
    };
    assert forall|i: int| 0 <= i < ks.len() && (!v.negative || i >= 1) implies {
        let k = #[trigger] ks[i];
        &&& k.value.spec_digit_of() is Some
        &&& k.value.spec_digit_of() == Some(0u64) ==> k.knot_type == KnotType::FigureEight
        &&& k.value.spec_digit_of() == Some(1u64) ==> k.knot_type == KnotType::Single
        &&& k.value.spec_digit_of() == Some(2u64) ==> k.knot_type == KnotType::Double
        &&& k.value.spec_digit_of() == Some(3u64) ==> k.knot_type == KnotType::Triple
        &&& k.value.spec_digit_of().unwrap() >= 4 ==> k.knot_type is LongKnot
    } by {
        let d = ds[i - offset];
        assert(ks[i] == digit_knot(d, i as u32));
        assert(d < 10);
        assert(digit_knot_type(d).spec_value() == KnotValue::spec_digit(d));
        lemma_digit_of_digit(d);
    }
}

/// Decoding the knots that encode a number gives back the number: the sign marker is
/// there exactly when the number is negative, and the digit values spell out its
/// magnitude.
pub proof fn lemma_decode_encode_value(v: SignedMagnitude)
    ensures
        has_sign_marker(encoded_knots(v)) == v.negative,
        reading_number(has_sign_marker(encoded_knots(v)), digit_values(encoded_knots(v)))
            == Some((v.negative, v.magnitude as nat)),
{
    let ks = encoded_knots(v);
    let ds = decimal_digits(v.magnitude);
    lemma_decimal_digits_short(v.magnitude);
    if v.negative {
        assert(ks[0] == sign_knot());
        assert(ks.len() >= 2);
    } else {
        assert(ks[0] == digit_knot(ds[0], 0));
        if ks.len() > 1 {
            assert(ks[0].label != Some("negative"@));
        }
    }
    assert forall|d: u64| d < 10 implies #[trigger] digit_knot_type(d).spec_value()
        == KnotValue::spec_digit(d) by {}
    assert(digit_values(ks) =~= digit_encodings(ds));
    if v.magnitude == 0 {
        let e = digit_encodings(ds);
        assert(e.drop_last() =~= Seq::<KnotValue>::empty());
        lemma_digit_of_digit(0);
        assert(whole_number(e.drop_last()) == Some(0nat));
        assert(whole_number(e) == Some(0nat));
    } else {
        lemma_whole_number_of_digits(v.magnitude);
    }
}

} // verus!
