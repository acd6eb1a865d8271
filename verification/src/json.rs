//! JSON documents: the tree the rest of the library reads and edits, and its text form.

use vstd::prelude::*;
use crate::double;
use crate::text::same;

verus! {

/// What a JSON number holds: an unsigned integer, a negative integer, or the bit pattern of a
/// double.
pub enum NumberView {
    Pos(u64),
    Neg(i64),
    Float(u64),
}

/// What a JSON document says. An object is a finite map: the order of its members means nothing.
pub enum JsonView {
    Null,
    Bool(bool),
    Number(NumberView),
    Str(Seq<char>),
    Arr(Seq<JsonView>),
    Obj(Map<Seq<char>, JsonView>),
}

/// A JSON document. Of members with the same name the first one counts.
#[derive(Debug)]
pub enum Json {
    Null,
    Bool(bool),
    Number(serde_json::Number),
    Str(String),
    Arr(Vec<Json>),
    Obj(Vec<(String, Json)>),
}

/// The number type of `serde_json`.
#[verifier::external_type_specification]
#[verifier::external_body]
pub struct ExNumber(serde_json::Number);

/// The value type of `serde_json`.
#[verifier::external_type_specification]
#[verifier::external_body]
pub struct ExValue(serde_json::Value);

/// The object type of `serde_json`.
#[verifier::external_type_specification]
#[verifier::external_body]
#[verifier::reject_recursive_types(K)]
#[verifier::reject_recursive_types(V)]
pub struct ExMap<K, V>(serde_json::Map<K, V>);

/// What a `serde_json::Number` holds.
pub uninterp spec fn number_view(n: serde_json::Number) -> NumberView;

/// What a `serde_json::Value` holds.
pub uninterp spec fn value_view(v: serde_json::Value) -> JsonView;

/// The members of a `serde_json::Map`.
pub uninterp spec fn map_view(m: serde_json::Map<String, serde_json::Value>) -> Map<Seq<char>, JsonView>;

/// The bit pattern of the double nearest to a JSON number.
pub uninterp spec fn double_bits(n: NumberView) -> u64;

/// What `serde_json` reads out of a text, or the message of its refusal.
pub uninterp spec fn parsed(text: Seq<char>) -> Result<JsonView, Seq<char>>;

/// The compact text that `serde_json` writes for a document.
pub uninterp spec fn compact(j: JsonView) -> Seq<char>;

/// The indented text that `serde_json` writes for a document.
pub uninterp spec fn pretty(j: JsonView) -> Seq<char>;

/// How a double is printed with no other request: by its bit pattern.
pub uninterp spec fn double_text(bits: u64) -> Seq<char>;

/// A `serde_json::Value` taken apart by its variants.
pub enum Parts {
    Null,
    Bool(bool),
    Number(serde_json::Number),
    Str(String),
    Arr(Vec<serde_json::Value>),
    Obj(serde_json::Map<String, serde_json::Value>),
}

/// The views of a list of values.
pub open spec fn value_views(v: Seq<serde_json::Value>) -> Seq<JsonView> {
    v.map_values(|x: serde_json::Value| value_view(x))
}

/// What the parts of a value hold.
pub open spec fn parts_view(p: Parts) -> JsonView {
    match p {
        Parts::Null => JsonView::Null,
        Parts::Bool(b) => JsonView::Bool(b),
        Parts::Number(n) => JsonView::Number(number_view(n)),
        Parts::Str(s) => JsonView::Str(s@),
        Parts::Arr(v) => JsonView::Arr(value_views(v@)),
        Parts::Obj(m) => JsonView::Obj(map_view(m)),
    }
}

/// Matches on `serde_json::Value`: the parts hold what the value holds.
#[verifier::external_body]
pub(crate) fn take_apart(v: serde_json::Value) -> (r: Parts)
    ensures
        parts_view(r) == value_view(v),
{
    match v {
        serde_json::Value::Null => Parts::Null,
        serde_json::Value::Bool(b) => Parts::Bool(b),
        serde_json::Value::Number(n) => Parts::Number(n),
        serde_json::Value::String(s) => Parts::Str(s),
        serde_json::Value::Array(a) => Parts::Arr(a),
        serde_json::Value::Object(m) => Parts::Obj(m),
    }
}

/// The constructors of `serde_json::Value`: the value holds what the parts hold.
#[verifier::external_body]
pub(crate) fn put_together(p: Parts) -> (r: serde_json::Value)
    ensures
        value_view(r) == parts_view(p),
{
    match p {
        Parts::Null => serde_json::Value::Null,
        Parts::Bool(b) => serde_json::Value::Bool(b),
        Parts::Number(n) => serde_json::Value::Number(n),
        Parts::Str(s) => serde_json::Value::String(s),
        Parts::Arr(a) => serde_json::Value::Array(a),
        Parts::Obj(m) => serde_json::Value::Object(m),
    }
}

/// `serde_json::Map::into_iter`: every member once, by ascending name.
#[verifier::external_body]
pub(crate) fn members(m: serde_json::Map<String, serde_json::Value>) -> (r: Vec<(String, serde_json::Value)>)
    ensures
        forall|i: int|
            0 <= i < r@.len() ==> map_view(m).contains_key((#[trigger] r@[i]).0@)
                && map_view(m)[r@[i].0@] == value_view(r@[i].1),
        forall|k: Seq<char>|
            map_view(m).contains_key(k) ==> exists|i: int|
                0 <= i < r@.len() && (#[trigger] r@[i]).0@ == k,
        forall|i: int, j: int|
            0 <= i < j < r@.len() ==> (#[trigger] r@[i]).0@ != (#[trigger] r@[j]).0@
                && crate::text::text_le(r@[i].0@, r@[j].0@),
{
    m.into_iter().collect()
}

/// `serde_json::Map::new`: an object without members.
#[verifier::external_body]
pub(crate) fn new_map() -> (r: serde_json::Map<String, serde_json::Value>)
    ensures
        forall|k: Seq<char>| !(#[trigger] map_view(r).contains_key(k)),
{
    serde_json::Map::new()
}

/// `serde_json::Map::insert`: sets one member, in place of one of the same name.
#[verifier::external_body]
pub(crate) fn map_insert(
    m: &mut serde_json::Map<String, serde_json::Value>,
    k: String,
    v: serde_json::Value,
)
    ensures
        map_view(*final(m)) == map_view(*old(m)).insert(k@, value_view(v)),
{
    let _ = m.insert(k, v);
}

/// `serde_json::Number::as_u64`: the integer, where the number is one that is not negative.
#[verifier::external_body]
pub(crate) fn number_u64(n: &serde_json::Number) -> (r: Option<u64>)
    ensures
        r == (match number_view(*n) {
            NumberView::Pos(u) => Some(u),
            _ => None,
        }),
{
    n.as_u64()
}

/// `serde_json::Number::as_f64`: the nearest double, by its bit pattern. It is always finite, a
/// double is given back as it is, and an integer up to 2^53 keeps its value.
#[verifier::external_body]
pub(crate) fn number_bits(n: &serde_json::Number) -> (r: Option<u64>)
    ensures
        r == Some(double_bits(number_view(*n))),
        double::finite(r->0),
        number_view(*n) matches NumberView::Float(b) ==> r->0 == b,
        number_view(*n) matches NumberView::Pos(u) ==> (u <= 0x20_0000_0000_0000
            ==> double::truncated(r->0) == u),
{
    n.as_f64().map(|x| x.to_bits())
}

/// `serde_json::Number::as_f64`, printed: the nearest double as `to_string` shows it.
#[verifier::external_body]
pub(crate) fn number_plain(n: &serde_json::Number) -> (r: Option<String>)
    ensures
        r is Some,
        r->0@ == double_text(double_bits(number_view(*n))),
{
    n.as_f64().map(|x| x.to_string())
}

/// `serde_json::Number::from`: the number of an unsigned integer.
#[verifier::external_body]
pub(crate) fn number_of(u: u64) -> (r: serde_json::Number)
    ensures
        number_view(r) == NumberView::Pos(u),
{
    serde_json::Number::from(u)
}

/// `serde_json::Number::clone`: the same number.
pub assume_specification[ <serde_json::Number as Clone>::clone ](n: &serde_json::Number) -> (r: serde_json::Number)
    ensures
        number_view(r) == number_view(*n),
;

/// `serde_json::from_str` into a value: its reading of the text, or the message of its error.
#[verifier::external_body]
pub(crate) fn value_from_text(s: &str) -> (r: Result<serde_json::Value, String>)
    ensures
        match r {
            Ok(v) => parsed(s@) == Ok::<JsonView, Seq<char>>(value_view(v)),
            Err(e) => parsed(s@) == Err::<JsonView, Seq<char>>(e@),
        },
{
    serde_json::from_str(s).map_err(|e| e.to_string())
}

/// How deep `serde_json` reads arrays and objects within each other.
pub const DEPTH: u8 = 127;

/// Whether a document has no doubles in it and is nested `n` deep at most.
pub open spec fn whole(j: JsonView, n: int) -> bool
    decreases n,
{
    match j {
        JsonView::Number(NumberView::Float(_)) => false,
        JsonView::Arr(s) => n > 0 && forall|i: int| 0 <= i < s.len() ==> whole(#[trigger] s[i], n - 1),
        JsonView::Obj(m) => n > 0 && forall|k: Seq<char>| m.contains_key(k) ==> whole(#[trigger] m[k], n - 1),
        _ => true,
    }
}

/// Whether `serde_json` reads a text as this document.
pub open spec fn reads_as(text: Seq<char>, j: JsonView) -> bool {
    parsed(text) == Ok::<JsonView, Seq<char>>(j)
}

/// Whether a text is on one line, and does not begin with white space.
pub open spec fn one_line(s: Seq<char>) -> bool {
    s.len() > 0 && !crate::text::white(s[0]) && forall|i: int|
        0 <= i < s.len() ==> #[trigger] s[i] != '\n' && s[i] != '\r'
}

/// `serde_json::Value` printed by `to_string`: the compact text, on one line. Without doubles, and
/// where it is not too deep, it reads as the same document.
#[verifier::external_body]
pub(crate) fn value_compact(v: &serde_json::Value) -> (r: String)
    ensures
        r@ == compact(value_view(*v)),
        one_line(r@),
        whole(value_view(*v), DEPTH as int) ==> reads_as(r@, value_view(*v)),
{
    v.to_string()
}

/// `serde_json::Value` printed with `{:#}`: the indented text. Without doubles, and where it is not
/// too deep, it reads as the same document.
#[verifier::external_body]
pub(crate) fn value_pretty(v: &serde_json::Value) -> (r: String)
    ensures
        r@ == pretty(value_view(*v)),
        whole(value_view(*v), DEPTH as int) ==> reads_as(r@, value_view(*v)),
{
    format!("{:#}", v)
}

/// What a list of documents holds.
pub open spec fn json_views(v: Seq<Json>) -> Seq<JsonView>
    decreases v,
{
    if v.len() == 0 {
        Seq::empty()
    } else {
        json_views(v.drop_last()).push(json_view(v.last()))
    }
}

/// What the members of an object hold: of the same name, the first one counts.
pub open spec fn object_view(v: Seq<(String, Json)>) -> Map<Seq<char>, JsonView>
    decreases v,
{
    if v.len() == 0 {
        Map::empty()
    } else {
        object_view(v.drop_first()).insert(v[0].0@, json_view(v[0].1))
    }
}

/// What a document holds.
pub open spec fn json_view(j: Json) -> JsonView
    decreases j,
{
    match j {
        Json::Null => JsonView::Null,
        Json::Bool(b) => JsonView::Bool(b),
        Json::Number(n) => JsonView::Number(number_view(n)),
        Json::Str(s) => JsonView::Str(s@),
        Json::Arr(v) => JsonView::Arr(json_views(v@)),
        Json::Obj(v) => JsonView::Obj(object_view(v@)),
    }
}

impl View for Json {
    type V = JsonView;

    open spec fn view(&self) -> JsonView {
        json_view(*self)
    }
}

/// A list of documents holds, place by place, what its elements hold.
pub proof fn lemma_json_views(v: Seq<Json>)
    ensures
        json_views(v).len() == v.len(),
        forall|i: int| 0 <= i < v.len() ==> #[trigger] json_views(v)[i] == v[i]@,
    decreases v.len(),
{
    if v.len() > 0 {
        lemma_json_views(v.drop_last());
        assert forall|i: int| 0 <= i < v.len() implies #[trigger] json_views(v)[i] == v[i]@ by {
            if i < v.len() - 1 {
                assert(json_views(v)[i] == json_views(v.drop_last())[i]);
            }
        }
    }
}

proof fn lemma_views_are(v: Seq<Json>, w: Seq<JsonView>)
    requires
        v.len() == w.len(),
        forall|i: int| 0 <= i < v.len() ==> (#[trigger] v[i])@ == w[i],
    ensures
        json_views(v) == w,
{
    lemma_json_views(v);
    assert(json_views(v) =~= w);
}

proof fn lemma_first(o: Seq<(String, Json)>, k: Seq<char>, i: int)
    requires
        0 <= i < o.len(),
        o[i].0@ == k,
        forall|j: int| 0 <= j < i ==> (#[trigger] o[j]).0@ != k,
    ensures
        object_view(o).contains_key(k),
        object_view(o)[k] == o[i].1@,
    decreases o.len(),
{
    if i > 0 {
        assert(o[0].0@ != k);
        assert forall|j: int| 0 <= j < i - 1 implies (#[trigger] o.drop_first()[j]).0@ != k by {
            assert(o.drop_first()[j] == o[j + 1]);
        }
        lemma_first(o.drop_first(), k, i - 1);
    }
}

proof fn lemma_absent(o: Seq<(String, Json)>, k: Seq<char>)
    ensures
        object_view(o).contains_key(k) <==> exists|j: int|
            0 <= j < o.len() && (#[trigger] o[j]).0@ == k,
    decreases o.len(),
{
    if o.len() > 0 {
        lemma_absent(o.drop_first(), k);
        if o[0].0@ != k {
            if exists|j: int| 0 <= j < o.len() && (#[trigger] o[j]).0@ == k {
                let j = choose|j: int| 0 <= j < o.len() && (#[trigger] o[j]).0@ == k;
                assert(o.drop_first()[j - 1].0@ == k);
            }
            if object_view(o.drop_first()).contains_key(k) {
                let j = choose|j: int|
                    0 <= j < o.drop_first().len() && (#[trigger] o.drop_first()[j]).0@ == k;
                assert(o[j + 1].0@ == k);
            }
        }
    }
}

proof fn lemma_update(o: Seq<(String, Json)>, i: int, p: (String, Json))
    requires
        0 <= i < o.len(),
        o[i].0@ == p.0@,
        forall|j: int| 0 <= j < i ==> (#[trigger] o[j]).0@ != p.0@,
    ensures
        object_view(o.update(i, p)) == object_view(o).insert(p.0@, p.1@),
    decreases o.len(),
{
    let n = o.update(i, p);
    if i == 0 {
        assert(n.drop_first() =~= o.drop_first());
    } else {
        assert(n.drop_first() =~= o.drop_first().update(i - 1, p));
        assert forall|j: int| 0 <= j < i - 1 implies (#[trigger] o.drop_first()[j]).0@ != p.0@ by {
            assert(o.drop_first()[j] == o[j + 1]);
        }
        assert(o[0].0@ != p.0@);
        lemma_update(o.drop_first(), i - 1, p);
    }
    assert(object_view(n) =~= object_view(o).insert(p.0@, p.1@));
}

proof fn lemma_push(o: Seq<(String, Json)>, p: (String, Json))
    ensures
        object_view(o.push(p)) == (if object_view(o).contains_key(p.0@) {
            object_view(o)
        } else {
            object_view(o).insert(p.0@, p.1@)
        }),
    decreases o.len(),
{
    let n = o.push(p);
    if o.len() == 0 {
        assert(n.drop_first() =~= o);
    } else {
        lemma_push(o.drop_first(), p);
        assert(n.drop_first() =~= o.drop_first().push(p));
    }
    assert(object_view(n) =~= (if object_view(o).contains_key(p.0@) {
        object_view(o)
    } else {
        object_view(o).insert(p.0@, p.1@)
    }));
}

proof fn lemma_same_members(a: Seq<(String, Json)>, b: Seq<(String, Json)>)
    requires
        a.len() == b.len(),
        forall|j: int| 0 <= j < a.len() ==> (#[trigger] a[j]).0@ == b[j].0@ && a[j].1@ == b[j].1@,
    ensures
        object_view(a) == object_view(b),
    decreases a.len(),
{
    if a.len() > 0 {
        assert forall|j: int| 0 <= j < a.len() - 1 implies (#[trigger] a.drop_first()[j]).0@
            == b.drop_first()[j].0@ && a.drop_first()[j].1@ == b.drop_first()[j].1@ by {
            assert(a.drop_first()[j] == a[j + 1]);
        }
        assert(a[0].0@ == b[0].0@);
        lemma_same_members(a.drop_first(), b.drop_first());
    }
}

/// The member of `j` named `k`: none where `j` is no object or has no such member.
pub open spec fn field(j: JsonView, k: Seq<char>) -> Option<JsonView> {
    match j {
        JsonView::Obj(m) => if m.contains_key(k) {
            Some(m[k])
        } else {
            None
        },
        _ => None,
    }
}

/// The text of a string; none for anything else.
pub open spec fn str_of(j: Option<JsonView>) -> Option<Seq<char>> {
    match j {
        Some(JsonView::Str(s)) => Some(s),
        _ => None,
    }
}

/// The value of an unsigned integer; none for anything else.
pub open spec fn uint_of(j: Option<JsonView>) -> Option<u64> {
    match j {
        Some(JsonView::Number(NumberView::Pos(u))) => Some(u),
        _ => None,
    }
}

/// The double nearest to a number, as its bit pattern; none for anything else.
pub open spec fn bits_of(j: Option<JsonView>) -> Option<u64> {
    match j {
        Some(JsonView::Number(n)) => Some(double_bits(n)),
        _ => None,
    }
}

/// The value of a boolean; none for anything else.
pub open spec fn bool_of(j: Option<JsonView>) -> Option<bool> {
    match j {
        Some(JsonView::Bool(b)) => Some(b),
        _ => None,
    }
}

/// The elements of an array; none for anything else.
pub open spec fn array_of(j: Option<JsonView>) -> Option<Seq<JsonView>> {
    match j {
        Some(JsonView::Arr(s)) => Some(s),
        _ => None,
    }
}

/// The members of an object; none for anything else.
pub open spec fn object_of(j: Option<JsonView>) -> Option<Map<Seq<char>, JsonView>> {
    match j {
        Some(JsonView::Obj(m)) => Some(m),
        _ => None,
    }
}

/// The view of an optional document.
pub open spec fn opt_json(j: Option<Json>) -> Option<JsonView> {
    match j {
        Some(x) => Some(x@),
        None => None,
    }
}

/// The view of a document that is lent out, if there is one.
pub open spec fn ref_json(j: Option<&Json>) -> Option<JsonView> {
    match j {
        Some(x) => Some(x@),
        None => None,
    }
}

/// The view of a string that is lent out, if there is one.
pub open spec fn ref_str(s: Option<&str>) -> Option<Seq<char>> {
    match s {
        Some(x) => Some(x@),
        None => None,
    }
}

/// Which names an object has.
pub proof fn lemma_members(o: Seq<(String, Json)>, k: Seq<char>)
    ensures
        object_view(o).contains_key(k) <==> exists|j: int| 0 <= j < o.len() && (#[trigger] o[j]).0@ == k,
{
    lemma_absent(o, k);
}

/// The position of the first member named `k`, or their number if there is none.
pub fn first_of(o: &Vec<(String, Json)>, k: &str) -> (r: usize)
    ensures
        r <= o@.len(),
        r < o@.len() ==> o@[r as int].0@ == k@ && object_view(o@).contains_key(k@) && object_view(o@)[k@] == o@[r as int].1@,
        r == o@.len() ==> !object_view(o@).contains_key(k@),
        forall|j: int| 0 <= j < r ==> (#[trigger] o@[j]).0@ != k@,
{
    match find(o, k) {
        Some(i) => i,
        None => {
            proof {
                lemma_absent(o@, k@);
            }
            o.len()
        },
    }
}

/// The member named `k`.
pub fn member<'a>(o: &'a Vec<(String, Json)>, k: &str) -> (r: Option<&'a Json>)
    ensures
        match r {
            Some(j) => object_view(o@).contains_key(k@) && object_view(o@)[k@] == j@,
            None => !object_view(o@).contains_key(k@),
        },
{
    match find(o, k) {
        Some(i) => Some(&o[i].1),
        None => None,
    }
}

fn find(o: &Vec<(String, Json)>, k: &str) -> (r: Option<usize>)
    ensures
        match r {
            Some(i) => i < o@.len() && o@[i as int].0@ == k@ && object_view(o@).contains_key(k@)
                && object_view(o@)[k@] == o@[i as int].1@ && (forall|j: int|
                0 <= j < i ==> (#[trigger] o@[j]).0@ != k@),
            None => !object_view(o@).contains_key(k@),
        },
{
    let mut i: usize = 0;
    while i < o.len()
        invariant
            i <= o@.len(),
            forall|j: int| 0 <= j < i ==> (#[trigger] o@[j]).0@ != k@,
        decreases o@.len() - i,
    {
        if same(o[i].0.as_str(), k) {
            proof {
                lemma_first(o@, k@, i as int);
            }
            return Some(i);
        }
        i += 1;
    }
    proof {
        lemma_absent(o@, k@);
    }
    None
}

/// Sets the member named `k`, in place of one of the same name.
pub fn put(o: &mut Vec<(String, Json)>, k: &str, v: Json)
    ensures
        object_view(final(o)@) == object_view(old(o)@).insert(k@, v@),
{
    let p = (k.to_owned(), v);
    match find(o, k) {
        Some(i) => {
            proof {
                lemma_update(o@, i as int, p);
            }
            o.set(i, p);
        },
        None => {
            proof {
                lemma_push(o@, p);
            }
            o.push(p);
        },
    }
}

/// The members of an object but for those named `k`.
pub fn without(o: Vec<(String, Json)>, k: &str) -> (r: Vec<(String, Json)>)
    ensures
        object_view(r@) == object_view(o@).remove(k@),
{
    let ghost all = o@;
    let mut rest = o;
    let mut back: Vec<(String, Json)> = Vec::new();
    while rest.len() > 0
        invariant
            rest@.len() + back@.len() == all.len(),
            rest@ == all.take(rest@.len() as int),
            forall|i: int| 0 <= i < back@.len() ==> #[trigger] back@[i] == all[all.len() - 1 - i],
        decreases rest@.len(),
    {
        let ghost n = rest@.len() - 1;
        match rest.pop() {
            Some(x) => {
                assert(x == all[n]);
                back.push(x);
            },
            None => {},
        }
        assert(rest@ =~= all.take(rest@.len() as int));
    }
    let mut out: Vec<(String, Json)> = Vec::new();
    assert(object_view(out@) =~= object_view(all.take(0)).remove(k@));
    while back.len() > 0
        invariant
            back@.len() <= all.len(),
            forall|i: int| 0 <= i < back@.len() ==> #[trigger] back@[i] == all[all.len() - 1 - i],
            object_view(out@) == object_view(all.take(all.len() - back@.len())).remove(k@),
        decreases back@.len(),
    {
        let ghost n = all.len() - back@.len();
        match back.pop() {
            Some(x) => {
                proof {
                    assert(x == all[n]);
                    assert(all.take(n + 1) =~= all.take(n).push(x));
                    lemma_push(all.take(n), x);
                    lemma_push(out@, x);
                }
                if !same(x.0.as_str(), k) {
                    out.push(x);
                }
                assert(object_view(out@) =~= object_view(all.take(n + 1)).remove(k@));
            },
            None => {},
        }
    }
    assert(all.take(all.len() as int) =~= all);
    out
}

/// A copy of a list of documents.
pub fn copy_array(v: &Vec<Json>) -> (r: Vec<Json>)
    ensures
        json_views(r@) == json_views(v@),
        r@.len() == v@.len(),
    decreases v,
{
    let mut out: Vec<Json> = Vec::new();
    let mut i: usize = 0;
    while i < v.len()
        invariant
            i <= v@.len(),
            out@.len() == i,
            forall|j: int| 0 <= j < i ==> (#[trigger] out@[j])@ == v@[j]@,
        decreases v@.len() - i,
    {
        proof {
            assert(decreases_to!(v@ => v@[i as int]));
        }
        out.push(v[i].copy());
        i += 1;
    }
    proof {
        lemma_json_views(v@);
        lemma_views_are(out@, json_views(v@));
    }
    out
}

/// A copy of the members of an object.
pub fn copy_object(v: &Vec<(String, Json)>) -> (r: Vec<(String, Json)>)
    ensures
        object_view(r@) == object_view(v@),
        r@.len() == v@.len(),
    decreases v,
{
    let mut out: Vec<(String, Json)> = Vec::new();
    let mut i: usize = 0;
    while i < v.len()
        invariant
            i <= v@.len(),
            out@.len() == i,
            forall|j: int|
                0 <= j < i ==> (#[trigger] out@[j]).0@ == v@[j].0@ && out@[j].1@ == v@[j].1@,
        decreases v@.len() - i,
    {
        let (k, x) = &v[i];
        proof {
            assert(decreases_to!(v@ => v@[i as int]));
            assert(decreases_to!(v@[i as int] => v@[i as int].1));
        }
        out.push((k.clone(), x.copy()));
        i += 1;
    }
    proof {
        lemma_same_members(out@, v@);
    }
    out
}

/// The document that a `serde_json::Value` holds.
pub fn from_value(v: serde_json::Value) -> (r: Json)
    ensures
        r@ == value_view(v),
    decreases value_view(v),
{
    match take_apart(v) {
        Parts::Null => Json::Null,
        Parts::Bool(b) => Json::Bool(b),
        Parts::Number(n) => Json::Number(n),
        Parts::Str(s) => Json::Str(s),
        Parts::Arr(a) => {
            let mut out: Vec<Json> = Vec::new();
            let ghost all = a@;
            let mut rest = a;
            while rest.len() > 0
                invariant
                    value_view(v) == JsonView::Arr(value_views(all)),
                    rest@.len() + out@.len() == all.len(),
                    rest@ == all.take(rest@.len() as int),
                    forall|j: int|
                        0 <= j < out@.len() ==> (#[trigger] out@[j])@ == value_view(
                            all[all.len() - 1 - j],
                        ),
                decreases rest@.len(),
            {
                let ghost n = rest@.len() - 1;
                match rest.pop() {
                    Some(x) => {
                        proof {
                            assert(x == all[n]);
                            assert(value_view(x) == value_views(all)[n]);
                            assert(decreases_to!(value_view(v) => value_view(v)->Arr_0));
                            assert(decreases_to!(value_views(all) => value_views(all)[n]));
                        }
                        out.push(from_value(x));
                    },
                    None => {},
                }
                assert(rest@ =~= all.take(rest@.len() as int));
            }
            let done = reversed(out);
            proof {
                lemma_views_are(done@, value_views(all));
            }
            Json::Arr(done)
        },
        Parts::Obj(m) => {
            let ghost mv = map_view(m);
            let a = members(m);
            let mut out: Vec<(String, Json)> = Vec::new();
            let ghost all = a@;
            let mut rest = a;
            proof {
                let names = all.map_values(|p: (String, serde_json::Value)| p.0@);
                assert forall|q: Seq<char>| #[trigger] mv.dom().contains(q) implies names.to_set().contains(q) by {
                    let i = choose|i: int| 0 <= i < all.len() && (#[trigger] all[i]).0@ == q;
                    assert(names[i] == q);
                }
                vstd::seq_lib::seq_to_set_is_finite(names);
                vstd::set_lib::lemma_set_subset_finite(names.to_set(), mv.dom());
            }
            while rest.len() > 0
                invariant
                    mv.dom().finite(),
                    value_view(v) == JsonView::Obj(mv),
                    forall|i: int|
                        0 <= i < all.len() ==> mv.contains_key((#[trigger] all[i]).0@)
                            && mv[all[i].0@] == value_view(all[i].1),
                    rest@.len() + out@.len() == all.len(),
                    rest@ == all.take(rest@.len() as int),
                    forall|j: int|
                        0 <= j < out@.len() ==> (#[trigger] out@[j]).0@ == all[all.len() - 1 - j].0@
                            && out@[j].1@ == value_view(all[all.len() - 1 - j].1),
                decreases rest@.len(),
            {
                let ghost n = rest@.len() - 1;
                match rest.pop() {
                    Some((k, x)) => {
                        proof {
                            assert((k, x) == all[n]);
                            assert(mv[k@] == value_view(x));
                            assert(decreases_to!(value_view(v) => value_view(v)->Obj_0));
                            assert(decreases_to!(mv => mv[k@]));
                        }
                        out.push((k, from_value(x)));
                    },
                    None => {},
                }
                assert(rest@ =~= all.take(rest@.len() as int));
            }
            proof {
                assert forall|q: Seq<char>| #![trigger mv.dom().contains(q)]
                    #![trigger object_view(out@).dom().contains(q)]
                    (object_view(out@).contains_key(q) <==> mv.contains_key(q))
                        && (mv.contains_key(q) ==> object_view(out@)[q] == mv[q]) by {
                    lemma_absent(out@, q);
                    if mv.contains_key(q) {
                        let i = choose|i: int| 0 <= i < all.len() && (#[trigger] all[i]).0@ == q;
                        let p = all.len() - 1 - i;
                        assert(out@[p].0@ == q);
                        assert forall|j: int| 0 <= j < p implies (#[trigger] out@[j]).0@ != q by {
                            assert(all[all.len() - 1 - j].0@ != all[i].0@);
                        }
                        lemma_first(out@, q, p);
                    } else if object_view(out@).contains_key(q) {
                        let p = choose|j: int| 0 <= j < out@.len() && (#[trigger] out@[j]).0@ == q;
                        assert(out@[p].0@ == all[all.len() - 1 - p].0@);
                        assert(false);
                    }
                }
                assert(object_view(out@) =~= mv);
            }
            Json::Obj(out)
        },
    }
}

/// The list in reverse order.
fn reversed(v: Vec<Json>) -> (r: Vec<Json>)
    ensures
        r@.len() == v@.len(),
        forall|i: int| 0 <= i < r@.len() ==> #[trigger] r@[i] == v@[v@.len() - 1 - i],
{
    let ghost all = v@;
    let mut rest = v;
    let mut out: Vec<Json> = Vec::new();
    while rest.len() > 0
        invariant
            rest@.len() + out@.len() == all.len(),
            rest@ == all.take(rest@.len() as int),
            forall|i: int| 0 <= i < out@.len() ==> #[trigger] out@[i] == all[all.len() - 1 - i],
        decreases rest@.len(),
    {
        let ghost n = rest@.len() - 1;
        match rest.pop() {
            Some(x) => {
                assert(x == all[n]);
                out.push(x);
            },
            None => {},
        }
        assert(rest@ =~= all.take(rest@.len() as int));
    }
    out
}

/// The `serde_json::Value` of a document.
pub fn to_value(j: &Json) -> (r: serde_json::Value)
    ensures
        value_view(r) == j@,
    decreases j,
{
    match j {
        Json::Null => put_together(Parts::Null),
        Json::Bool(b) => put_together(Parts::Bool(*b)),
        Json::Number(n) => put_together(Parts::Number(n.clone())),
        Json::Str(s) => put_together(Parts::Str(s.clone())),
        Json::Arr(v) => {
            let mut out: Vec<serde_json::Value> = Vec::new();
            let mut i: usize = 0;
            while i < v.len()
                invariant
                    i <= v@.len(),
                    *j == Json::Arr(*v),
                    out@.len() == i,
                    forall|q: int| 0 <= q < i ==> value_view(#[trigger] out@[q]) == v@[q]@,
                decreases v@.len() - i,
            {
                proof {
                    assert(decreases_to!(*j => j->Arr_0));
                    assert(decreases_to!(*v => v@));
                    assert(decreases_to!(v@ => v@[i as int]));
                }
                out.push(to_value(&v[i]));
                i += 1;
            }
            proof {
                lemma_json_views(v@);
                assert(value_views(out@) =~= json_views(v@));
            }
            put_together(Parts::Arr(out))
        },
        Json::Obj(v) => {
            let mut m = new_map();
            let mut i: usize = v.len();
            assert(v@.skip(v@.len() as int) =~= Seq::empty());
            assert(map_view(m) =~= object_view(v@.skip(v@.len() as int)));
            while i > 0
                invariant
                    i <= v@.len(),
                    *j == Json::Obj(*v),
                    map_view(m) == object_view(v@.skip(i as int)),
                decreases i,
            {
                i -= 1;
                let (k, x) = &v[i];
                proof {
                    assert(decreases_to!(*j => j->Obj_0));
                    assert(decreases_to!(*v => v@));
                    assert(decreases_to!(v@ => v@[i as int]));
                    assert(decreases_to!(v@[i as int] => v@[i as int].1));
                }
                map_insert(&mut m, k.clone(), to_value(x));
                proof {
                    let a = v@.skip(i as int);
                    let b = v@.skip(i + 1);
                    assert(a.drop_first() =~= b);
                    assert(object_view(a) =~= object_view(b).insert(k@, x@));
                }
            }
            assert(v@.skip(0) =~= v@);
            put_together(Parts::Obj(m))
        },
    }
}

impl Clone for Json {
    fn clone(&self) -> (r: Self)
        ensures
            r@ == self@,
    {
        self.copy()
    }
}

impl Json {
    /// A copy of the document.
    pub fn copy(&self) -> (r: Json)
        ensures
            r@ == self@,
        decreases self,
    {
        match self {
            Json::Null => Json::Null,
            Json::Bool(b) => Json::Bool(*b),
            Json::Number(n) => Json::Number(n.clone()),
            Json::Str(s) => Json::Str(s.clone()),
            Json::Arr(v) => Json::Arr(copy_array(v)),
            Json::Obj(v) => Json::Obj(copy_object(v)),
        }
    }

    /// The document of an unsigned integer.
    pub fn uint(u: u64) -> (r: Json)
        ensures
            r@ == JsonView::Number(NumberView::Pos(u)),
    {
        Json::Number(number_of(u))
    }

    /// The document of a string.
    pub fn text(s: &str) -> (r: Json)
        ensures
            r@ == JsonView::Str(s@),
    {
        Json::Str(s.to_owned())
    }

    /// The document of an object with these members.
    pub fn object(o: Vec<(String, Json)>) -> (r: Json)
        ensures
            r@ == JsonView::Obj(object_view(o@)),
            r == Json::Obj(o),
    {
        Json::Obj(o)
    }

    /// The document of an array with these elements.
    pub fn array(v: Vec<Json>) -> (r: Json)
        ensures
            r@ == JsonView::Arr(json_views(v@)),
    {
        Json::Arr(v)
    }

    /// The member named `k`: none where this is no object or has no such member.
    pub fn get(&self, k: &str) -> (r: Option<&Json>)
        ensures
            ref_json(r) == field(self@, k@),
    {
        match self {
            Json::Obj(o) => {
                match find(o, k) {
                    Some(i) => Some(&o[i].1),
                    None => None,
                }
            },
            _ => None,
        }
    }

    /// Whether this is an object.
    pub fn is_object(&self) -> (r: bool)
        ensures
            r == (self@ is Obj),
    {
        match self {
            Json::Obj(_) => true,
            _ => false,
        }
    }

    /// The text of a string.
    pub fn as_str(&self) -> (r: Option<&str>)
        ensures
            ref_str(r) == str_of(Some(self@)),
    {
        match self {
            Json::Str(s) => Some(s.as_str()),
            _ => None,
        }
    }

    /// The value of an unsigned integer.
    pub fn as_u64(&self) -> (r: Option<u64>)
        ensures
            r == uint_of(Some(self@)),
    {
        match self {
            Json::Number(n) => number_u64(n),
            _ => None,
        }
    }

    /// The double nearest to a number, as its bit pattern.
    pub fn as_bits(&self) -> (r: Option<u64>)
        ensures
            r == bits_of(Some(self@)),
            r matches Some(b) ==> double::finite(b),
    {
        match self {
            Json::Number(n) => number_bits(n),
            _ => None,
        }
    }

    /// The double nearest to a number, as it is printed.
    pub fn double_string(&self) -> (r: Option<String>)
        ensures
            match bits_of(Some(self@)) {
                Some(b) => r matches Some(s) && s@ == double_text(b),
                None => r is None,
            },
    {
        match self {
            Json::Number(n) => number_plain(n),
            _ => None,
        }
    }

    /// The value of a boolean.
    pub fn as_bool(&self) -> (r: Option<bool>)
        ensures
            r == bool_of(Some(self@)),
    {
        match self {
            Json::Bool(b) => Some(*b),
            _ => None,
        }
    }

    /// The elements of an array.
    pub fn as_array(&self) -> (r: Option<&Vec<Json>>)
        ensures
            (match r {
                Some(v) => Some(json_views(v@)),
                None => None,
            }) == array_of(Some(self@)),
    {
        match self {
            Json::Arr(v) => Some(v),
            _ => None,
        }
    }

    /// The members of an object.
    pub fn as_object(&self) -> (r: Option<&Vec<(String, Json)>>)
        ensures
            (match r {
                Some(v) => Some(object_view(v@)),
                None => None,
            }) == object_of(Some(self@)),
    {
        match self {
            Json::Obj(v) => Some(v),
            _ => None,
        }
    }

    /// The text of the member named `k`.
    pub fn str_at(&self, k: &str) -> (r: Option<&str>)
        ensures
            ref_str(r) == str_of(field(self@, k@)),
    {
        match self.get(k) {
            Some(x) => x.as_str(),
            None => None,
        }
    }

    /// The unsigned integer of the member named `k`.
    pub fn u64_at(&self, k: &str) -> (r: Option<u64>)
        ensures
            r == uint_of(field(self@, k@)),
    {
        match self.get(k) {
            Some(x) => x.as_u64(),
            None => None,
        }
    }

    /// The bit pattern of the number in the member named `k`.
    pub fn bits_at(&self, k: &str) -> (r: Option<u64>)
        ensures
            r == bits_of(field(self@, k@)),
            r matches Some(b) ==> double::finite(b),
    {
        match self.get(k) {
            Some(x) => x.as_bits(),
            None => None,
        }
    }

    /// Reads a document from its text.
    pub fn parse(s: &str) -> (r: Result<Json, String>)
        ensures
            match r {
                Ok(j) => parsed(s@) == Ok::<JsonView, Seq<char>>(j@),
                Err(e) => parsed(s@) == Err::<JsonView, Seq<char>>(e@),
            },
    {
        match value_from_text(s) {
            Ok(v) => Ok(from_value(v)),
            Err(e) => Err(e),
        }
    }

    /// The compact text of the document.
    pub fn to_text(&self) -> (r: String)
        ensures
            r@ == compact(self@),
            one_line(r@),
            whole(self@, DEPTH as int) ==> reads_as(r@, self@),
    {
        value_compact(&to_value(self))
    }

    /// The indented text of the document.
    pub fn to_pretty(&self) -> (r: String)
        ensures
            r@ == pretty(self@),
            whole(self@, DEPTH as int) ==> reads_as(r@, self@),
    {
        value_pretty(&to_value(self))
    }
}

} // verus!
