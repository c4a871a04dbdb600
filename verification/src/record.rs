//! Records and the flattener: one probe sample carries an arbitrary JSON
//! document, and flattening turns it into an ordered mapping from dotted key
//! paths to scalar metric values.
use crate::num::{chars_to_string, dec_digits, digit_char, f64_total_order_key, Timestamp};
use crate::sortedmap::{SortKey, SortedMap};
use crate::text::{
    char_seq_lt, lemma_char_seq_lt_asymmetric, lemma_char_seq_lt_connected,
    lemma_char_seq_lt_irrefl, lemma_char_seq_lt_transitive, str_eq, str_lt,
};
use vstd::prelude::*;

verus! {

/// One JSON document, as plain values: numbers keep the shape they were
/// parsed with (signed, unsigned beyond the signed range, or binary64 bits),
/// and object members keep their textual order.
pub enum JsonValue {
    Null,
    Bool(bool),
    Int(i64),
    Uint(u64),
    Float(u64),
    Text(String),
    Array(Vec<JsonValue>),
    Object(Vec<(String, JsonValue)>),
}

/// One flattened scalar sample.
pub enum MetricValue {
    Null,
    Bool(bool),
    Integer(i64),
    Float(u64),
    Text(String),
}

/// The mathematical value of a `MetricValue`: text as its characters.
pub enum MetricView {
    Null,
    Bool(bool),
    Integer(i64),
    Float(u64),
    Text(Seq<char>),
}

impl View for MetricValue {
    type V = MetricView;

    closed spec fn view(&self) -> MetricView {
        match self {
            MetricValue::Null => MetricView::Null,
            MetricValue::Bool(b) => MetricView::Bool(*b),
            MetricValue::Integer(v) => MetricView::Integer(*v),
            MetricValue::Float(bits) => MetricView::Float(*bits),
            MetricValue::Text(s) => MetricView::Text(s@),
        }
    }
}

/// The rank a metric value's kind takes in the total order:
/// null before booleans before integers before floats before text.
pub open spec fn mv_rank(a: MetricView) -> int {
    match a {
        MetricView::Null => 0,
        MetricView::Bool(_) => 1,
        MetricView::Integer(_) => 2,
        MetricView::Float(_) => 3,
        MetricView::Text(_) => 4,
    }
}

/// The strict total order on metric values: by kind first, then naturally
/// within a kind; floats by the IEEE-754 total order on their bit patterns.
pub open spec fn mv_lt(a: MetricView, b: MetricView) -> bool {
    if mv_rank(a) != mv_rank(b) {
        mv_rank(a) < mv_rank(b)
    } else {
        match (a, b) {
            (MetricView::Bool(x), MetricView::Bool(y)) => !x && y,
            (MetricView::Integer(x), MetricView::Integer(y)) => x < y,
            (MetricView::Float(x), MetricView::Float(y)) => f64_total_order_key(x)
                < f64_total_order_key(y),
            (MetricView::Text(x), MetricView::Text(y)) => char_seq_lt(x, y),
            _ => false,
        }
    }
}

pub proof fn lemma_mv_lt_laws(a: MetricView, b: MetricView, c: MetricView)
    ensures
        !(mv_lt(a, b) && mv_lt(b, a)),
        mv_lt(a, b) && mv_lt(b, c) ==> mv_lt(a, c),
        a != b ==> mv_lt(a, b) || mv_lt(b, a),
        !mv_lt(a, a),
{
    if let MetricView::Text(x) = a {
        lemma_char_seq_lt_irrefl(x);
        if let MetricView::Text(y) = b {
            lemma_char_seq_lt_asymmetric(x, y);
            lemma_char_seq_lt_connected(x, y);
            if let MetricView::Text(z) = c {
                lemma_char_seq_lt_transitive(x, y, z);
            }
        }
    }
}

impl MetricValue {
    /// Whether the value is numeric (integer or float).
    pub fn is_number(&self) -> (r: bool)
        ensures
            r == (self@ is Integer || self@ is Float),
    {
        match self {
            MetricValue::Integer(_) => true,
            MetricValue::Float(_) => true,
            _ => false,
        }
    }

    pub fn is_integer(&self) -> (r: bool)
        ensures
            r == (self@ is Integer),
    {
        match self {
            MetricValue::Integer(_) => true,
            _ => false,
        }
    }

    /// An equal copy of the value.
    pub fn duplicate(&self) -> (r: Self)
        ensures
            r == *self,
    {
        match self {
            MetricValue::Null => MetricValue::Null,
            MetricValue::Bool(b) => MetricValue::Bool(*b),
            MetricValue::Integer(v) => MetricValue::Integer(*v),
            MetricValue::Float(bits) => MetricValue::Float(*bits),
            MetricValue::Text(t) => MetricValue::Text(t.clone()),
        }
    }

    pub fn as_i64(&self) -> (r: Option<i64>)
        ensures
            match r {
                Some(v) => self@ == MetricView::Integer(v),
                None => !(self@ is Integer),
            },
    {
        match self {
            MetricValue::Integer(v) => Some(*v),
            _ => None,
        }
    }
}

impl SortKey for MetricValue {
    open spec fn lt_spec(a: MetricView, b: MetricView) -> bool {
        mv_lt(a, b)
    }

    proof fn lemma_lt_laws(a: MetricView, b: MetricView, c: MetricView) {
        lemma_mv_lt_laws(a, b, c);
    }

    fn lt_exec(&self, other: &Self) -> (r: bool) {
        match (self, other) {
            (MetricValue::Null, MetricValue::Null) => false,
            (MetricValue::Bool(x), MetricValue::Bool(y)) => !*x && *y,
            (MetricValue::Integer(x), MetricValue::Integer(y)) => *x < *y,
            (MetricValue::Float(x), MetricValue::Float(y)) => crate::num::total_order_key(*x)
                < crate::num::total_order_key(*y),
            (MetricValue::Text(x), MetricValue::Text(y)) => str_lt(x.as_str(), y.as_str()),
            (MetricValue::Null, _) => true,
            (_, MetricValue::Null) => false,
            (MetricValue::Bool(_), _) => true,
            (_, MetricValue::Bool(_)) => false,
            (MetricValue::Integer(_), _) => true,
            (_, MetricValue::Integer(_)) => false,
            (MetricValue::Float(_), _) => true,
            (_, MetricValue::Float(_)) => false,
        }
    }

    fn eq_exec(&self, other: &Self) -> (r: bool) {
        match (self, other) {
            (MetricValue::Null, MetricValue::Null) => true,
            (MetricValue::Bool(x), MetricValue::Bool(y)) => *x == *y,
            (MetricValue::Integer(x), MetricValue::Integer(y)) => *x == *y,
            (MetricValue::Float(x), MetricValue::Float(y)) => *x == *y,
            (MetricValue::Text(x), MetricValue::Text(y)) => str_eq(x, y),
            _ => false,
        }
    }
}

/// One timestamped probe sample.
pub struct Record {
    pub target: String,
    pub timestamp: Timestamp,
    pub value: JsonValue,
}

/// A record with its JSON document flattened to an ordered mapping from
/// dotted key paths to metric values.
pub struct FlattenedRecord {
    pub target: String,
    pub timestamp: Timestamp,
    pub metrics: SortedMap<String, MetricValue>,
}

/// A child's key path: the member name under an empty prefix, else the
/// prefix, a dot, and the name.
pub open spec fn join_key(prefix: Seq<char>, name: Seq<char>) -> Seq<char> {
    if prefix.len() == 0 {
        name
    } else {
        prefix + seq!['.'] + name
    }
}

/// An array index in decimal, zero-padded on the left to `width` characters.
pub open spec fn pad_index(n: nat, width: nat) -> Seq<char> {
    if dec_digits(n).len() >= width {
        dec_digits(n)
    } else {
        Seq::new((width - dec_digits(n).len()) as nat, |i: int| '0') + dec_digits(n)
    }
}

/// The padding width for an array of `len` elements: the decimal width of
/// the largest index.
pub open spec fn index_width(len: nat) -> nat {
    if len == 0 {
        0
    } else {
        dec_digits((len - 1) as nat).len()
    }
}

/// The clamped integer a JSON unsigned value flattens to: values beyond the
/// signed range collapse to the largest signed value.
pub open spec fn clamp_uint(u: u64) -> i64 {
    if u <= i64::MAX {
        u as i64
    } else {
        i64::MAX
    }
}

/// The flat mapping of one JSON document under a key prefix: every
/// root-to-leaf path, joined with dots, bound to the scalar at its leaf.
/// When paths collide, the later binding in document order wins.
pub open spec fn flat_spec(v: JsonValue, prefix: Seq<char>) -> Map<Seq<char>, MetricView>
    decreases v, 0int, 0int,
{
    match v {
        JsonValue::Null => map![prefix => MetricView::Null],
        JsonValue::Bool(b) => map![prefix => MetricView::Bool(b)],
        JsonValue::Int(i) => map![prefix => MetricView::Integer(i)],
        JsonValue::Uint(u) => map![prefix => MetricView::Integer(clamp_uint(u))],
        JsonValue::Float(bits) => map![prefix => MetricView::Float(bits)],
        JsonValue::Text(s) => map![prefix => MetricView::Text(s@)],
        JsonValue::Array(vs) => flat_array(vs@, 0, index_width(vs@.len()), prefix),
        JsonValue::Object(ps) => flat_object(ps@, 0, prefix),
    }
}

/// The flat mapping of the array elements from position `idx` on.
pub open spec fn flat_array(
    cs: Seq<JsonValue>,
    idx: int,
    width: nat,
    prefix: Seq<char>,
) -> Map<Seq<char>, MetricView>
    decreases cs, 1int, cs.len() - idx,
{
    if idx < 0 || idx >= cs.len() {
        Map::empty()
    } else {
        flat_spec(cs[idx], join_key(prefix, pad_index(idx as nat, width))).union_prefer_right(
            flat_array(cs, idx + 1, width, prefix),
        )
    }
}

/// The flat mapping of the object members from position `idx` on.
pub open spec fn flat_object(
    ps: Seq<(String, JsonValue)>,
    idx: int,
    prefix: Seq<char>,
) -> Map<Seq<char>, MetricView>
    decreases ps, 1int, ps.len() - idx,
{
    if idx < 0 || idx >= ps.len() {
        Map::empty()
    } else {
        flat_spec(ps[idx].1, join_key(prefix, ps[idx].0@)).union_prefer_right(
            flat_object(ps, idx + 1, prefix),
        )
    }
}

/// The view of a looked-up binding.
pub open spec fn viewed(o: Option<MetricValue>) -> Option<MetricView> {
    match o {
        Some(v) => Some(v@),
        None => None,
    }
}

/// The new mapping is the old one overridden by `add`: bindings of `add`
/// are present (viewed), everything else is untouched.
pub open spec fn extends_with(
    m0: SortedMap<String, MetricValue>,
    m1: SortedMap<String, MetricValue>,
    add: Map<Seq<char>, MetricView>,
) -> bool {
    &&& m1.wf()
    &&& forall|k: Seq<char>|
        add.dom().contains(k) ==> #[trigger] viewed(m1.spec_get(k)) == Some(add[k])
    &&& forall|k: Seq<char>| !add.dom().contains(k) ==> #[trigger] m1.spec_get(k) == m0.spec_get(k)
}


/// The digits of `n`, least significant first.
spec fn rev_plain(m: nat) -> Seq<char>
    decreases m,
{
    if m == 0 {
        Seq::empty()
    } else {
        seq![digit_char((m % 10) as int)] + rev_plain(m / 10)
    }
}

proof fn lemma_rev_plain_reversed(m: nat)
    requires
        m > 0,
    ensures
        rev_plain(m).reverse() == dec_digits(m),
    decreases m,
{
    let d = seq![digit_char((m % 10) as int)];
    if m < 10 {
        assert(rev_plain(m) =~= d);
        assert(rev_plain(m).reverse() =~= d);
        assert(dec_digits(m) =~= d);
    } else {
        lemma_rev_plain_reversed(m / 10);
        assert(rev_plain(m) =~= d + rev_plain(m / 10));
        assert((d + rev_plain(m / 10)).reverse() =~= rev_plain(m / 10).reverse() + d);
    }
}

/// The decimal digits of `n` as characters, without any grouping.
pub fn dec_chars(n: u64) -> (r: Vec<char>)
    ensures
        r@ == dec_digits(n as nat),
{
    if n == 0 {
        let mut out: Vec<char> = Vec::new();
        out.push('0');
        proof {
            assert(digit_char(0) == '0');
            assert(out@ =~= dec_digits(0));
        }
        return out;
    }
    let mut rev: Vec<char> = Vec::new();
    let mut m: u64 = n;
    while m > 0
        invariant
            rev@ + rev_plain(m as nat) == rev_plain(n as nat),
        decreases m,
    {
        let d: u64 = m % 10;
        rev.push((48 + d as u8) as char);
        proof {
            assert(digit_char(d as int) == (48 + d as u8) as char);
        }
        m = m / 10;
    }
    let mut out: Vec<char> = Vec::new();
    let mut j: usize = rev.len();
    while j > 0
        invariant
            j <= rev@.len(),
            out@ == rev@.subrange(j as int, rev@.len() as int).reverse(),
        decreases j,
    {
        j = j - 1;
        out.push(rev[j]);
        proof {
            assert(out@ =~= rev@.subrange(j as int, rev@.len() as int).reverse());
        }
    }
    proof {
        assert(rev@ =~= rev@.subrange(0, rev@.len() as int));
        lemma_rev_plain_reversed(n as nat);
    }
    out
}

/// An index zero-padded to `width` characters.
fn pad_index_exec(n: u64, width: usize) -> (r: String)
    ensures
        r@ == pad_index(n as nat, width as nat),
{
    let digits = dec_chars(n);
    let mut out: Vec<char> = Vec::new();
    let dlen = digits.len();
    if dlen < width {
        let mut z: usize = 0;
        let ghost zeros = Seq::new((width - dlen) as nat, |i: int| '0');
        while z < width - dlen
            invariant
                dlen < width,
                z <= width - dlen,
                zeros == Seq::new((width - dlen) as nat, |i: int| '0'),
                out@ == zeros.take(z as int),
            decreases width - dlen - z,
        {
            out.push('0');
            proof {
                assert(out@ =~= zeros.take(z + 1));
            }
            z = z + 1;
        }
        proof {
            assert(out@ =~= zeros);
        }
    }
    let mut digits = digits;
    out.append(&mut digits);
    proof {
        if dlen < width {
            assert(out@ =~= pad_index(n as nat, width as nat));
        } else {
            assert(out@ =~= pad_index(n as nat, width as nat));
        }
    }
    chars_to_string(&out)
}

/// The key path of a child member under a prefix.
fn join_key_exec(prefix: &String, name: &String) -> (r: String)
    ensures
        r@ == join_key(prefix@, name@),
{
    if prefix.as_str().is_empty() {
        let r = name.clone();
        r
    } else {
        let mut r = prefix.clone();
        r.append(".");
        r.append(name.as_str());
        proof {
            reveal_strlit(".");
            assert(("."@) =~= seq!['.']);
            assert(r@ =~= join_key(prefix@, name@));
        }
        r
    }
}

/// Flattens one JSON value under a key prefix into the mapping, later
/// bindings overriding earlier ones.
#[verifier::loop_isolation(false)]
fn flatten_value(v: &JsonValue, key: &String, metrics: &mut SortedMap<String, MetricValue>)
    requires
        old(metrics).wf(),
    ensures
        extends_with(*old(metrics), *final(metrics), flat_spec(*v, key@)),
    decreases *v,
{
    match v {
        JsonValue::Null => {
            metrics.insert(key.clone(), MetricValue::Null);
        },
        JsonValue::Bool(b) => {
            metrics.insert(key.clone(), MetricValue::Bool(*b));
        },
        JsonValue::Int(i) => {
            metrics.insert(key.clone(), MetricValue::Integer(*i));
        },
        JsonValue::Uint(u) => {
            let clamped: i64 = if *u <= 0x7fff_ffff_ffff_ffff {
                *u as i64
            } else {
                i64::MAX
            };
            metrics.insert(key.clone(), MetricValue::Integer(clamped));
        },
        JsonValue::Float(bits) => {
            metrics.insert(key.clone(), MetricValue::Float(*bits));
        },
        JsonValue::Text(s) => {
            metrics.insert(key.clone(), MetricValue::Text(s.clone()));
        },
        JsonValue::Array(vs) => {
            let n = vs.len();
            let width: usize = if n == 0 {
                0
            } else {
                dec_chars((n - 1) as u64).len()
            };
            let ghost m0 = *metrics;
            let mut i: usize = 0;
            while i < n
                invariant
                    m0.wf(),
                    n == vs@.len(),
                    i <= n,
                    width as nat == index_width(vs@.len()),
                    metrics.wf(),
                    extends_with(m0, *metrics, flat_front_array(vs@, i as int, width as nat, key@)),
                decreases n - i,
            {
                let child_key_tail = pad_index_exec(i as u64, width);
                let child_key = join_key_exec(key, &child_key_tail);
                proof {
                    assert(*vs == v->Array_0);
                    assert(decreases_to!(*v => v->Array_0));
                    assert(decreases_to!(*vs => vs@));
                    assert(decreases_to!(vs@ => vs@[i as int]));
                }
                flatten_value(&vs[i], &child_key, metrics);
                proof {
                    lemma_flat_front_array_step(vs@, i as int, width as nat, key@);
                }
                i = i + 1;
            }
            proof {
                lemma_flat_front_array_full(vs@, width as nat, key@);
            }
        },
        JsonValue::Object(ps) => {
            let n = ps.len();
            let ghost m0 = *metrics;
            let mut i: usize = 0;
            while i < n
                invariant
                    m0.wf(),
                    n == ps@.len(),
                    i <= n,
                    metrics.wf(),
                    extends_with(m0, *metrics, flat_front_object(ps@, i as int, key@)),
                decreases n - i,
            {
                let child_key = join_key_exec(key, &ps[i].0);
                proof {
                    assert(*ps == v->Object_0);
                    assert(decreases_to!(*v => v->Object_0));
                    assert(decreases_to!(*ps => ps@));
                    assert(decreases_to!(ps@ => ps@[i as int]));
                    assert(decreases_to!(ps@[i as int] => ps@[i as int].1));
                }
                flatten_value(&ps[i].1, &child_key, metrics);
                proof {
                    lemma_flat_front_object_step(ps@, i as int, key@);
                }
                i = i + 1;
            }
            proof {
                lemma_flat_front_object_full(ps@, key@);
            }
        },
    }
}

/// The flat mapping of the array elements before position `idx`.
spec fn flat_front_array(cs: Seq<JsonValue>, idx: int, width: nat, prefix: Seq<char>) -> Map<
    Seq<char>,
    MetricView,
>
    decreases idx,
{
    if idx <= 0 {
        Map::empty()
    } else {
        flat_front_array(cs, idx - 1, width, prefix).union_prefer_right(
            flat_spec(cs[idx - 1], join_key(prefix, pad_index((idx - 1) as nat, width))),
        )
    }
}

/// The flat mapping of the object members before position `idx`.
spec fn flat_front_object(ps: Seq<(String, JsonValue)>, idx: int, prefix: Seq<char>) -> Map<
    Seq<char>,
    MetricView,
>
    decreases idx,
{
    if idx <= 0 {
        Map::empty()
    } else {
        flat_front_object(ps, idx - 1, prefix).union_prefer_right(
            flat_spec(ps[idx - 1].1, join_key(prefix, ps[idx - 1].0@)),
        )
    }
}

proof fn lemma_flat_front_array_step(cs: Seq<JsonValue>, i: int, width: nat, prefix: Seq<char>)
    requires
        0 <= i < cs.len(),
    ensures
        flat_front_array(cs, i + 1, width, prefix) == flat_front_array(
            cs,
            i,
            width,
            prefix,
        ).union_prefer_right(flat_spec(cs[i], join_key(prefix, pad_index(i as nat, width)))),
{
}

proof fn lemma_flat_front_object_step(ps: Seq<(String, JsonValue)>, i: int, prefix: Seq<char>)
    requires
        0 <= i < ps.len(),
    ensures
        flat_front_object(ps, i + 1, prefix) == flat_front_object(ps, i, prefix).union_prefer_right(
            flat_spec(ps[i].1, join_key(prefix, ps[i].0@)),
        ),
{
}

/// Processing the whole array front-to-back covers exactly the array's flat
/// mapping.
proof fn lemma_front_back_array(cs: Seq<JsonValue>, i: int, width: nat, prefix: Seq<char>)
    requires
        0 <= i <= cs.len(),
    ensures
        flat_front_array(cs, i, width, prefix).union_prefer_right(
            flat_array(cs, i, width, prefix),
        ) == flat_array(cs, 0, width, prefix),
    decreases i,
{
    if i == 0 {
        assert(flat_front_array(cs, 0, width, prefix).union_prefer_right(
            flat_array(cs, 0, width, prefix),
        ) =~= flat_array(cs, 0, width, prefix));
    } else {
        lemma_front_back_array(cs, i - 1, width, prefix);
        let front = flat_front_array(cs, i - 1, width, prefix);
        let this = flat_spec(cs[i - 1], join_key(prefix, pad_index((i - 1) as nat, width)));
        let back = flat_array(cs, i, width, prefix);
        assert(flat_array(cs, i - 1, width, prefix) == this.union_prefer_right(back));
        assert(front.union_prefer_right(this).union_prefer_right(back) =~= front.union_prefer_right(
            this.union_prefer_right(back),
        ));
    }
}

proof fn lemma_flat_front_array_full(cs: Seq<JsonValue>, width: nat, prefix: Seq<char>)
    ensures
        flat_front_array(cs, cs.len() as int, width, prefix) == flat_array(cs, 0, width, prefix),
{
    lemma_front_back_array(cs, cs.len() as int, width, prefix);
    assert(flat_front_array(cs, cs.len() as int, width, prefix).union_prefer_right(
        Map::empty(),
    ) =~= flat_front_array(cs, cs.len() as int, width, prefix));
}

proof fn lemma_front_back_object(ps: Seq<(String, JsonValue)>, i: int, prefix: Seq<char>)
    requires
        0 <= i <= ps.len(),
    ensures
        flat_front_object(ps, i, prefix).union_prefer_right(flat_object(ps, i, prefix))
            == flat_object(ps, 0, prefix),
    decreases i,
{
    if i == 0 {
        assert(flat_front_object(ps, 0, prefix).union_prefer_right(flat_object(ps, 0, prefix))
            =~= flat_object(ps, 0, prefix));
    } else {
        lemma_front_back_object(ps, i - 1, prefix);
        let front = flat_front_object(ps, i - 1, prefix);
        let this = flat_spec(ps[i - 1].1, join_key(prefix, ps[i - 1].0@));
        let back = flat_object(ps, i, prefix);
        assert(flat_object(ps, i - 1, prefix) == this.union_prefer_right(back));
        assert(front.union_prefer_right(this).union_prefer_right(back) =~= front.union_prefer_right(
            this.union_prefer_right(back),
        ));
    }
}

proof fn lemma_flat_front_object_full(ps: Seq<(String, JsonValue)>, prefix: Seq<char>)
    ensures
        flat_front_object(ps, ps.len() as int, prefix) == flat_object(ps, 0, prefix),
{
    lemma_front_back_object(ps, ps.len() as int, prefix);
    assert(flat_front_object(ps, ps.len() as int, prefix).union_prefer_right(Map::empty())
        =~= flat_front_object(ps, ps.len() as int, prefix));
}

impl Record {
    /// Flattens the record's JSON document: the result maps every
    /// root-to-leaf path of the document, joined with dots and with array
    /// indices zero-padded to the width of the largest index, to the scalar
    /// at that leaf.
    pub fn flatten(&self) -> (r: FlattenedRecord)
        ensures
            r.target@ == self.target@,
            r.timestamp == self.timestamp,
            r.metrics.wf(),
            forall|k: Seq<char>|
                flat_spec(self.value, Seq::<char>::empty()).dom().contains(k)
                    ==> #[trigger] viewed(r.metrics.spec_get(k)) == Some(
                    flat_spec(self.value, Seq::<char>::empty())[k],
                ),
            forall|k: Seq<char>|
                !flat_spec(self.value, Seq::<char>::empty()).dom().contains(k)
                    ==> #[trigger] r.metrics.spec_get(k) is None,
    {
        let mut metrics: SortedMap<String, MetricValue> = SortedMap::new();
        let empty_key = String::new();
        flatten_value(&self.value, &empty_key, &mut metrics);
        FlattenedRecord { target: self.target.clone(), timestamp: self.timestamp, metrics }
    }
}

} // verus!
