//! The local dashboard: which request means what, and which edits of a declaration are let through.

use vstd::prelude::*;
use crate::double;
use crate::json::bits_of;
use crate::json::bool_of;
use crate::json::compact;
use crate::json::double_text;
use crate::json::field;
use crate::json::object_view;
use crate::json::parsed;
use crate::json::pretty;
use crate::json::put;
use crate::json::reads_as;
use crate::json::whole;
use crate::json::Json;
use crate::json::JsonView;
use crate::json::DEPTH;
use crate::schema::safe_component;
use crate::schema::safe_name;
use crate::text;
use crate::text::begins;
use crate::text::dec;
use crate::text::ends;
use crate::text::head_of;
use crate::text::lowered;
use crate::text::opt_view;
use crate::text::past;
use crate::text::same;
use crate::text::tail_of;
use crate::text::text_le;

verus! {

/// The type of pages.
pub const HTML: &'static str = "text/html; charset=utf-8";

/// The type of JSON answers.
pub const JSON: &'static str = "application/json; charset=utf-8";

/// The type of plain text.
pub const TEXT: &'static str = "text/plain; charset=utf-8";

/// How large parameters may be that are written in one go.
pub const MAX_PARAMS_BYTES: usize = 8 * 1024;

/// What a dashboard is started with.
#[derive(Debug, Clone)]
pub struct Config {
    pub data: String,
    pub adapters: String,
    pub listen: String,
    pub allow_write: bool,
}

// ---------------------------------------------------------------------------------------------
// Merging
// ---------------------------------------------------------------------------------------------

/// Whether `r` is `dst` with `src` merged into it: objects are merged member by member, anything
/// else is replaced.
pub open spec fn is_merge(r: JsonView, dst: JsonView, src: JsonView) -> bool
    decreases src,
{
    match (dst, src) {
        (JsonView::Obj(d), JsonView::Obj(s)) => match r {
            JsonView::Obj(m) => {
                &&& forall|k: Seq<char>| #[trigger] m.contains_key(k) <==> d.contains_key(k) || s.contains_key(k)
                &&& forall|k: Seq<char>| d.contains_key(k) && !s.contains_key(k) ==> #[trigger] m[k] == d[k]
                &&& forall|k: Seq<char>| #[trigger]
                    s.contains_key(k) ==> if d.contains_key(k) && d[k] is Obj && s[k] is Obj {
                        is_merge(m[k], d[k], s[k])
                    } else {
                        m[k] == s[k]
                    }
            },
            _ => false,
        },
        _ => r == src,
    }
}

/// Members of `src` up to `n`, counting each name once: whether `k` is among them.
spec fn among(src: Seq<(String, Json)>, n: int, k: Seq<char>) -> bool {
    exists|j: int| 0 <= j < n && (#[trigger] src[j]).0@ == k
}

/// `dst` with `src` merged into it.
pub fn merged(dst: &Json, src: &Json) -> (r: Json)
    ensures
        is_merge(r@, dst@, src@),
    decreases src,
{
    match (dst, src) {
        (Json::Obj(d), Json::Obj(s)) => {
            let mut out = crate::json::copy_object(d);
            let ghost dm = object_view(d@);
            let ghost sm = object_view(s@);
            let mut i: usize = 0;
            while i < s.len()
                invariant
                    i <= s@.len(),
                    *src == Json::Obj(*s),
                    dm == object_view(d@),
                    sm == object_view(s@),
                    forall|k: Seq<char>| #[trigger]
                        object_view(out@).contains_key(k) <==> dm.contains_key(k) || among(s@, i as int, k),
                    forall|k: Seq<char>| #![trigger object_view(out@)[k]]
                        dm.contains_key(k) && !among(s@, i as int, k) ==> object_view(out@)[k] == dm[k],
                    forall|k: Seq<char>| #[trigger]
                        among(s@, i as int, k) ==> sm.contains_key(k) && if dm.contains_key(k) && dm[k] is Obj && sm[k] is Obj {
                            is_merge(object_view(out@)[k], dm[k], sm[k])
                        } else {
                            object_view(out@)[k] == sm[k]
                        },
                decreases s@.len() - i,
            {
                let (k, v) = &s[i];
                let ghost before = object_view(out@);
                let ghost seen = among(s@, i as int, k@);
                let first = crate::json::first_of(s, k.as_str());
                proof {
                    assert forall|q: Seq<char>| #[trigger] among(s@, i + 1, q) <==> among(s@, i as int, q) || q == k@ by {
                        if among(s@, i + 1, q) {
                            let j = choose|j: int| 0 <= j < i + 1 && (#[trigger] s@[j]).0@ == q;
                            if j < i {
                                assert(among(s@, i as int, q));
                            }
                        }
                        if among(s@, i as int, q) {
                            let j = choose|j: int| 0 <= j < i && (#[trigger] s@[j]).0@ == q;
                            assert(s@[j].0@ == q);
                        }
                        if q == k@ {
                            assert(s@[i as int].0@ == q);
                        }
                    }
                    if seen {
                        let j = choose|j: int| 0 <= j < i && (#[trigger] s@[j]).0@ == k@;
                        assert(s@[j].0@ == k@);
                        assert(first != i);
                    } else {
                        if first < i {
                            assert(s@[first as int].0@ == k@);
                            assert(among(s@, i as int, k@));
                        }
                        assert(first == i);
                    }
                }
                if first == i {
                    assert(sm[k@] == v@);
                    let new = match crate::json::member(&out, k.as_str()) {
                        Some(e) => {
                            proof {
                                assert(decreases_to!(*src => src->Obj_0));
                                assert(decreases_to!(*s => s@));
                                assert(decreases_to!(s@ => s@[i as int]));
                                assert(decreases_to!(s@[i as int] => s@[i as int].1));
                            }
                            if e.is_object() && v.is_object() {
                                merged(e, v)
                            } else {
                                v.copy()
                            }
                        },
                        None => v.copy(),
                    };
                    put(&mut out, k.as_str(), new);
                    proof {
                        assert forall|q: Seq<char>| #[trigger] among(s@, i + 1, q) implies sm.contains_key(q)
                            && if dm.contains_key(q) && dm[q] is Obj && sm[q] is Obj {
                            is_merge(object_view(out@)[q], dm[q], sm[q])
                        } else {
                            object_view(out@)[q] == sm[q]
                        } by {
                            if q != k@ {
                                assert(among(s@, i as int, q));
                            }
                        }
                    }
                }
                i += 1;
            }
            proof {
                assert forall|k: Seq<char>| #[trigger] sm.contains_key(k) <==> among(s@, s@.len() as int, k) by {
                    crate::json::lemma_members(s@, k);
                }
            }
            Json::object(out)
        },
        _ => {
            src.copy()
        },
    }
}

/// Merges `src` into `dst`: objects member by member, anything else is replaced.
pub fn deep_merge(dst: &mut Json, src: &Json)
    ensures
        is_merge(final(dst)@, old(dst)@, src@),
{
    let r = merged(dst, src);
    *dst = r;
}

/// There is one way to merge only.
pub proof fn merge_is_unique(a: JsonView, b: JsonView, dst: JsonView, src: JsonView)
    requires
        is_merge(a, dst, src),
        is_merge(b, dst, src),
    ensures
        a == b,
    decreases src,
{
    match (dst, src) {
        (JsonView::Obj(d), JsonView::Obj(s)) => {
            let x = a->Obj_0;
            let y = b->Obj_0;
            assert forall|k: Seq<char>| #[trigger] x.contains_key(k) implies x[k] == y[k] by {
                if s.contains_key(k) {
                    if d.contains_key(k) && d[k] is Obj && s[k] is Obj {
                        merge_is_unique(x[k], y[k], d[k], s[k]);
                    }
                } else {
                    assert(y.contains_key(k));
                }
            }
            assert forall|k: Seq<char>| #[trigger] x.dom().contains(k) <==> y.dom().contains(k) by {
                assert(x.contains_key(k) <==> y.contains_key(k));
            }
            assert(x =~= y);
        },
        _ => {},
    }
}

/// Merging leaves alone what it does not name: every member of the target that the patch has not
/// stays as it is.
pub proof fn merge_keeps_siblings(r: JsonView, dst: JsonView, src: JsonView, k: Seq<char>)
    requires
        is_merge(r, dst, src),
        dst is Obj,
        src is Obj,
        !(src->Obj_0).contains_key(k),
    ensures
        field(r, k) == field(dst, k),
{
    let m = r->Obj_0;
    assert(m.contains_key(k) <==> (dst->Obj_0).contains_key(k));
}

/// Merging sets what it names: a member of the patch that is no object is found in the result as
/// the patch has it.
pub proof fn merge_sets_members(r: JsonView, dst: JsonView, src: JsonView, k: Seq<char>)
    requires
        is_merge(r, dst, src),
        dst is Obj,
        src is Obj,
        (src->Obj_0).contains_key(k),
        !((src->Obj_0)[k] is Obj),
    ensures
        field(r, k) == field(src, k),
{
    let m = r->Obj_0;
    assert(m.contains_key(k));
}

// ---------------------------------------------------------------------------------------------
// Which edits are let through
// ---------------------------------------------------------------------------------------------

/// Whether a threshold is a negative number.
pub open spec fn negative(v: Option<JsonView>) -> bool {
    bits_of(v) matches Some(b) && double::order_key(b) < 0
}

/// The complaint about a negative threshold.
pub open spec fn negative_note(k: Seq<char>, v: JsonView) -> Seq<char> {
    "vad."@ + k + " 不能是负数："@ + compact(v)
}

/// What is wrong with thresholds: none where nothing is. Only what the recorder would correct
/// without a word is caught here.
pub open spec fn vad_fault(v: JsonView) -> Option<Seq<char>> {
    if !(v is Obj) {
        Some("params.vad 必须是个对象"@)
    } else if negative(field(v, "rms_open"@)) {
        Some(negative_note("rms_open"@, field(v, "rms_open"@)->0))
    } else if negative(field(v, "rms_close"@)) {
        Some(negative_note("rms_close"@, field(v, "rms_close"@)->0))
    } else {
        match (bits_of(field(v, "rms_open"@)), bits_of(field(v, "rms_close"@))) {
            (Some(o), Some(c)) => if double::order_key(c) >= double::order_key(o) {
                Some(
                    "vad.rms_close（"@ + double_text(c) + "）必须低于 vad.rms_open（"@ + double_text(o)
                        + "）：关段门限不低于开段门限时，语音段永远关不掉"@,
                )
            } else {
                None
            },
            _ => None,
        }
    }
}

fn check_negative(o: &Json, k: &str) -> (r: Option<String>)
    ensures
        opt_view(r) == (if negative(field(o@, k@)) {
            Some(negative_note(k@, field(o@, k@)->0))
        } else {
            None
        }),
{
    match o.get(k) {
        Some(v) => match v.as_bits() {
            Some(b) => {
                if double::less(b, 0) {
                    let mut s = "vad.".to_owned();
                    s.append(k);
                    s.append(" 不能是负数：");
                    s.append(v.to_text().as_str());
                    Some(s)
                } else {
                    None
                }
            },
            None => None,
        },
        None => None,
    }
}

/// Whether thresholds are such that the recorder takes them as they are. The refusal says why.
pub fn vad_is_sane(vad: &Json) -> (r: Result<(), String>)
    ensures
        match r {
            Ok(_) => vad_fault(vad@) is None,
            Err(e) => vad_fault(vad@) == Some(e@),
        },
{
    if !vad.is_object() {
        return Err("params.vad 必须是个对象".to_owned());
    }
    match check_negative(vad, "rms_open") {
        Some(e) => {
            return Err(e);
        },
        None => {},
    }
    match check_negative(vad, "rms_close") {
        Some(e) => {
            return Err(e);
        },
        None => {},
    }
    match (vad.get("rms_open"), vad.get("rms_close")) {
        (Some(o), Some(c)) => match (o.as_bits(), c.as_bits(), o.double_string(), c.double_string()) {
            (Some(ob), Some(cb), Some(ot), Some(ct)) => {
                if !double::less(cb, ob) {
                    let mut s = "vad.rms_close（".to_owned();
                    s.append(ct.as_str());
                    s.append("）必须低于 vad.rms_open（");
                    s.append(ot.as_str());
                    s.append("）：关段门限不低于开段门限时，语音段永远关不掉");
                    return Err(s);
                }
            },
            _ => {},
        },
        _ => {},
    }
    Ok(())
}

/// A member that must not be changed.
pub open spec fn forbidden(m: Map<Seq<char>, JsonView>, k: Seq<char>) -> bool {
    m.contains_key(k) && k != "enabled"@ && k != "params"@
}

/// The first member, by name, that must not be changed.
pub open spec fn first_forbidden(m: Map<Seq<char>, JsonView>, k: Seq<char>) -> bool {
    forbidden(m, k) && forall|q: Seq<char>| #[trigger] forbidden(m, q) ==> text_le(k, q)
}

/// The size of a document in its compact text, in bytes.
pub open spec fn size_of(j: JsonView) -> usize {
    vstd::utf8::encode_utf8(compact(j)).len() as usize
}

/// What is wrong with the parameters of a request: none where nothing is.
pub open spec fn params_fault(file: Seq<char>, v: JsonView) -> Option<Seq<char>> {
    if !(v is Obj) {
        Some(file + ": params 必须是个对象"@)
    } else if field(v, "vad"@) is Some && vad_fault(field(v, "vad"@)->0) is Some {
        vad_fault(field(v, "vad"@)->0)
    } else if size_of(v) > MAX_PARAMS_BYTES {
        Some(
            file + ": params 序列化后 "@ + dec(size_of(v) as int) + " 字节，超过 "@ + dec(MAX_PARAMS_BYTES as int) + " 上限"@,
        )
    } else {
        None
    }
}

/// What a request to change a declaration comes to.
pub open spec fn request(file: Seq<char>, want: JsonView, r: Result<JsonView, Seq<char>>) -> bool {
    match want {
        JsonView::Obj(m) => if exists|k: Seq<char>| #[trigger] forbidden(m, k) {
            exists|k: Seq<char>| #[trigger]
                first_forbidden(m, k) && r == Err::<JsonView, Seq<char>>(
                    file + ": 只能改 enabled/params，收到 "@ + k + "；换可执行文件请人工改声明并重启客户端"@,
                )
        } else if m == Map::<Seq<char>, JsonView>::empty() {
            r == Err::<JsonView, Seq<char>>(file + ": 请求体是空对象，没有任何要改的字段"@)
        } else if m.contains_key("enabled"@) && !(m["enabled"@] is Bool) {
            r == Err::<JsonView, Seq<char>>(file + ": enabled 必须是 true 或 false"@)
        } else if m.contains_key("params"@) && params_fault(file, m["params"@]) is Some {
            r == Err::<JsonView, Seq<char>>(params_fault(file, m["params"@])->0)
        } else {
            r == Ok::<JsonView, Seq<char>>(want)
        },
        _ => r == Err::<JsonView, Seq<char>>(
            file + ": 请求体必须是 JSON 对象，形如 {\"enabled\": true} 或 {\"params\": {…}}"@,
        ),
    }
}

/// What a result holds.
pub open spec fn result_view(r: Result<Json, String>) -> Result<JsonView, Seq<char>> {
    match r {
        Ok(j) => Ok(j@),
        Err(e) => Err(e@),
    }
}

fn about(file: &str, a: &str) -> (r: String)
    ensures
        r@ == file@ + a@,
{
    let mut s = file.to_owned();
    s.append(a);
    s
}

fn find_forbidden(o: &Vec<(String, Json)>) -> (r: Option<usize>)
    ensures
        match r {
            Some(i) => i < o@.len() && first_forbidden(object_view(o@), o@[i as int].0@),
            None => forall|k: Seq<char>| !(#[trigger] forbidden(object_view(o@), k)),
        },
{
    let ghost m = object_view(o@);
    let mut best: Option<usize> = None;
    let mut i: usize = 0;
    while i < o.len()
        invariant
            i <= o@.len(),
            m == object_view(o@),
            match best {
                Some(b) => b < i && forbidden(m, o@[b as int].0@) && (forall|j: int|
                    0 <= j < i && forbidden(m, (#[trigger] o@[j]).0@) ==> text_le(o@[b as int].0@, o@[j].0@)),
                None => forall|j: int| 0 <= j < i ==> !forbidden(m, (#[trigger] o@[j]).0@),
            },
        decreases o@.len() - i,
    {
        let k = o[i].0.as_str();
        proof {
            crate::json::lemma_members(o@, k@);
            assert(o@[i as int].0@ == k@);
            text::text_le_reflexive(k@);
        }
        if !same(k, "enabled") && !same(k, "params") {
            match best {
                Some(b) => {
                    if !text::not_after(o[b].0.as_str(), k) {
                        proof {
                            text::text_le_total(o@[b as int].0@, k@);
                            assert forall|j: int| 0 <= j < i + 1 && forbidden(m, (#[trigger] o@[j]).0@) implies text_le(
                                k@,
                                o@[j].0@,
                            ) by {
                                if j < i {
                                    text::text_le_transitive(k@, o@[b as int].0@, o@[j].0@);
                                }
                            }
                        }
                        best = Some(i);
                    }
                },
                None => {
                    best = Some(i);
                },
            }
        }
        i += 1;
    }
    proof {
        assert forall|q: Seq<char>| #[trigger] forbidden(m, q) implies exists|j: int|
            0 <= j < o@.len() && (#[trigger] o@[j]).0@ == q by {
            crate::json::lemma_members(o@, q);
        }
    }
    best
}

/// Judges a request to change a declaration, and gives back what of it may be merged. Only
/// `enabled` and `params` may be changed.
pub fn merge_decl(file: &str, want: &Json) -> (r: Result<Json, String>)
    ensures
        request(file@, want@, result_view(r)),
{
    let o = match want.as_object() {
        Some(o) => o,
        None => {
            return Err(about(file, ": 请求体必须是 JSON 对象，形如 {\"enabled\": true} 或 {\"params\": {…}}"));
        },
    };
    let ghost m = object_view(o@);
    match find_forbidden(o) {
        Some(i) => {
            let mut s = about(file, ": 只能改 enabled/params，收到 ");
            s.append(o[i].0.as_str());
            s.append("；换可执行文件请人工改声明并重启客户端");
            proof {
                let k = o@[i as int].0@;
                assert(first_forbidden(m, k));
                assert(forbidden(m, k));
            }
            return Err(s);
        },
        None => {},
    }
    if o.len() == 0 {
        assert(m =~= Map::<Seq<char>, JsonView>::empty());
        return Err(about(file, ": 请求体是空对象，没有任何要改的字段"));
    }
    proof {
        assert(m.contains_key(o@[0].0@));
    }
    match want.get("enabled") {
        Some(v) => {
            if v.as_bool().is_none() {
                return Err(about(file, ": enabled 必须是 true 或 false"));
            }
        },
        None => {},
    }
    match want.get("params") {
        Some(v) => {
            if !v.is_object() {
                return Err(about(file, ": params 必须是个对象"));
            }
            match v.get("vad") {
                Some(vad) => match vad_is_sane(vad) {
                    Ok(_) => {},
                    Err(e) => {
                        return Err(e);
                    },
                },
                None => {},
            }
            let t = v.to_text();
            let size: usize = t.as_str().len();
            if size > MAX_PARAMS_BYTES {
                let mut s = about(file, ": params 序列化后 ");
                text::push_dec(&mut s, size as u64);
                s.append(" 字节，超过 ");
                text::push_dec(&mut s, MAX_PARAMS_BYTES as u64);
                s.append(" 上限");
                return Err(s);
            }
        },
        None => {},
    }
    Ok(want.copy())
}

/// A declaration with its switch set, where the patch sets it.
pub open spec fn switched(decl: Map<Seq<char>, JsonView>, patch: JsonView) -> Map<Seq<char>, JsonView> {
    match bool_of(field(patch, "enabled"@)) {
        Some(b) => decl.insert("enabled"@, JsonView::Bool(b)),
        None => decl,
    }
}

/// Whether `r` is a declaration with a patch applied.
pub open spec fn patched(r: JsonView, decl: Map<Seq<char>, JsonView>, patch: JsonView) -> bool {
    if field(patch, "params"@) is Some {
        is_merge(r, JsonView::Obj(switched(decl, patch)), patch)
    } else {
        r == JsonView::Obj(switched(decl, patch))
    }
}

/// Applies a patch to the members of a declaration.
pub fn apply_patch(decl: Vec<(String, Json)>, patch: &Json) -> (r: (Json, Option<bool>, bool))
    ensures
        patched(r.0@, object_view(decl@), patch@),
        r.1 == bool_of(field(patch@, "enabled"@)),
        r.2 == (field(patch@, "params"@) is Some),
{
    let enabled = match patch.get("enabled") {
        Some(v) => v.as_bool(),
        None => None,
    };
    let mut o = decl;
    match enabled {
        Some(b) => put(&mut o, "enabled", Json::Bool(b)),
        None => {},
    }
    let mut v = Json::object(o);
    let changed = patch.get("params").is_some();
    if changed {
        deep_merge(&mut v, patch);
    }
    (v, enabled, changed)
}

/// Applies a patch to the text of a declaration: the new text, the switch if it was set, and
/// whether parameters were changed.
pub fn merge_decl_into(text: &str, patch: &Json) -> (r: Result<(String, Option<bool>, bool), String>)
    ensures
        match parsed(text@) {
            Err(e) => r matches Err(m) && m@ == "声明文件本身不是合法 JSON："@ + e,
            Ok(JsonView::Obj(decl)) => match r {
                Ok(t) => {
                    &&& exists|v: JsonView|
                        t.0@ == #[trigger] pretty(v) && patched(v, decl, patch@) && (whole(v, DEPTH as int) ==> reads_as(
                            t.0@,
                            v,
                        ))
                    &&& t.1 == bool_of(field(patch@, "enabled"@))
                    &&& t.2 == (field(patch@, "params"@) is Some)
                },
                Err(_) => false,
            },
            Ok(_) => r matches Err(m) && m@ == "声明文件必须是 JSON 对象"@,
        },
{
    let v = match Json::parse(text) {
        Ok(v) => v,
        Err(e) => {
            let mut s = "声明文件本身不是合法 JSON：".to_owned();
            s.append(e.as_str());
            return Err(s);
        },
    };
    match v {
        Json::Obj(o) => {
            let (v, enabled, changed) = apply_patch(o, patch);
            Ok((v.to_pretty(), enabled, changed))
        },
        _ => Err("声明文件必须是 JSON 对象".to_owned()),
    }
}

/// A patch that was let through changes nothing of a declaration but its switch and its
/// parameters: whatever else it holds, the program to start above all, stays as it was.
pub proof fn patches_touch_nothing_else(
    file: Seq<char>,
    want: JsonView,
    decl: Map<Seq<char>, JsonView>,
    r: JsonView,
    k: Seq<char>,
)
    requires
        request(file, want, Ok(want)),
        patched(r, decl, want),
        k != "enabled"@,
        k != "params"@,
    ensures
        field(r, k) == field(JsonView::Obj(decl), k),
{
    let m = want->Obj_0;
    assert(want is Obj);
    assert(!forbidden(m, k));
    if field(want, "params"@) is Some {
        merge_keeps_siblings(r, JsonView::Obj(switched(decl, want)), want, k);
    }
}

// ---------------------------------------------------------------------------------------------
// Answers
// ---------------------------------------------------------------------------------------------

/// What an error is answered with.
pub open spec fn error_view(msg: Seq<char>) -> JsonView {
    JsonView::Obj(Map::<Seq<char>, JsonView>::empty().insert("error"@, JsonView::Str(msg)))
}

/// What an error is answered with, in text.
pub fn err(msg: &str) -> (r: String)
    ensures
        r@ == compact(error_view(msg@)),
{
    let mut o: Vec<(String, Json)> = Vec::new();
    put(&mut o, "error", Json::text(msg));
    Json::object(o).to_text()
}

/// The type of a file, by its name.
pub open spec fn mime(name: Seq<char>) -> Seq<char> {
    let e = lowered(text::behind_last(name, '.'));
    if e == "png"@ {
        "image/png"@
    } else if e == "jpg"@ || e == "jpeg"@ {
        "image/jpeg"@
    } else if e == "webp"@ {
        "image/webp"@
    } else if e == "gif"@ {
        "image/gif"@
    } else if e == "wav"@ {
        "audio/wav"@
    } else if e == "ogg"@ {
        "audio/ogg"@
    } else if e == "opus"@ {
        "audio/opus"@
    } else if e == "mp3"@ {
        "audio/mpeg"@
    } else if e == "json"@ {
        JSON@
    } else if e == "txt"@ || e == "vtt"@ || e == "md"@ {
        TEXT@
    } else {
        "application/octet-stream"@
    }
}

/// The type of a file, by its name.
pub fn mime_of(name: &str) -> (r: &'static str)
    ensures
        r@ == mime(name@),
{
    let ext = text::to_lower(text::after_last(name, '.').as_str());
    let e = ext.as_str();
    if same(e, "png") {
        "image/png"
    } else if same(e, "jpg") || same(e, "jpeg") {
        "image/jpeg"
    } else if same(e, "webp") {
        "image/webp"
    } else if same(e, "gif") {
        "image/gif"
    } else if same(e, "wav") {
        "audio/wav"
    } else if same(e, "ogg") {
        "audio/ogg"
    } else if same(e, "opus") {
        "audio/opus"
    } else if same(e, "mp3") {
        "audio/mpeg"
    } else if same(e, "json") {
        JSON
    } else if same(e, "txt") || same(e, "vtt") || same(e, "md") {
        TEXT
    } else {
        "application/octet-stream"
    }
}

// ---------------------------------------------------------------------------------------------
// Requests
// ---------------------------------------------------------------------------------------------

/// How a request was made.
#[derive(Debug, Clone, Copy, PartialEq, Eq, Structural)]
pub enum Verb {
    Get,
    Post,
    Other,
}

/// What of a lesson is asked for.
#[derive(Debug, Clone)]
pub enum Part {
    Whole,
    Stats,
    Digest,
    Blob { name: String },
    /// A blob whose name is not safe.
    BadBlob,
    Unknown,
}

/// What a request means.
#[derive(Debug, Clone)]
pub enum Route {
    Page,
    Health,
    Lessons,
    Adapters,
    Lesson { id: String, part: Part },
    /// Change the declaration in this file.
    Patch { path: String },
    Refuse { code: u16, msg: String },
}

/// What of a lesson is asked for, by what stands behind its name.
pub open spec fn is_part(p: Part, rest: Option<Seq<char>>) -> bool {
    match rest {
        None => p is Whole,
        Some(r) => {
            let word = head_of(r, '/');
            let name = match tail_of(r, '/') {
                Some(n) => n,
                None => Seq::empty(),
            };
            if word == "stats"@ {
                p is Stats
            } else if word == "digest"@ {
                p is Digest
            } else if word == "blob"@ {
                if safe_name(name) {
                    p matches Part::Blob { name: n } && n@ == name
                } else {
                    p is BadBlob
                }
            } else {
                p is Unknown
            }
        },
    }
}

/// Whether `r` refuses with this code and these words.
pub open spec fn refuses(r: Route, code: u16, msg: Seq<char>) -> bool {
    r matches Route::Refuse { code: c, msg: m } && c == code && m@ == msg
}

/// What reading a path means.
pub open spec fn is_read(r: Route, path: Seq<char>) -> bool {
    if path == "/"@ || path == "/index.html"@ {
        r is Page
    } else if path == "/api/health"@ {
        r is Health
    } else if path == "/api/lessons"@ {
        r is Lessons
    } else if path == "/api/adapters"@ {
        r is Adapters
    } else {
        match past(path, "/api/lesson/"@) {
            Some(rest) => {
                let id = head_of(rest, '/');
                if safe_name(id) {
                    r matches Route::Lesson { id: i, part: p } && i@ == id && is_part(p, tail_of(rest, '/'))
                } else {
                    refuses(r, 400, "课程 id 不合法：只允许字母、数字、- _ ."@)
                }
            },
            None => refuses(r, 404, "没有这个接口"@),
        }
    }
}

/// What a request means.
pub open spec fn is_route(r: Route, verb: Verb, path: Seq<char>, allow_write: bool) -> bool {
    match verb {
        Verb::Get => is_read(r, path),
        Verb::Post => if !allow_write {
            refuses(r, 403, "写操作未开启：启动时加 --allow-write"@)
        } else if begins(path, "/api/adapter/"@) {
            r matches Route::Patch { path: p } && p@ == path
        } else {
            refuses(r, 404, "没有这个写接口"@)
        },
        Verb::Other => refuses(r, 405, "只支持 GET，以及开启 --allow-write 后的 POST"@),
    }
}

fn refuse(code: u16, msg: &str) -> (r: Route)
    ensures
        refuses(r, code, msg@),
{
    Route::Refuse { code, msg: msg.to_owned() }
}

/// The path of a request, without its query.
pub fn path_of(url: &str) -> (r: String)
    ensures
        r@ == head_of(url@, '?'),
{
    text::split_once(url, '?').0
}

fn part_of(rest: Option<String>) -> (r: Part)
    ensures
        is_part(r, opt_view(rest)),
{
    match rest {
        None => Part::Whole,
        Some(s) => {
            let (word, tail) = text::split_once(s.as_str(), '/');
            let w = word.as_str();
            if same(w, "stats") {
                Part::Stats
            } else if same(w, "digest") {
                Part::Digest
            } else if same(w, "blob") {
                let name = match tail {
                    Some(n) => n,
                    None => String::new(),
                };
                if safe_component(name.as_str()) {
                    Part::Blob { name }
                } else {
                    Part::BadBlob
                }
            } else {
                Part::Unknown
            }
        },
    }
}

/// What a path under a lesson means.
pub fn lesson_route(path: &str) -> (r: Route)
    requires
        begins(path@, "/api/lesson/"@),
    ensures
        match past(path@, "/api/lesson/"@) {
            Some(rest) => {
                let id = head_of(rest, '/');
                if safe_name(id) {
                    r matches Route::Lesson { id: i, part: p } && i@ == id && is_part(p, tail_of(rest, '/'))
                } else {
                    refuses(r, 400, "课程 id 不合法：只允许字母、数字、- _ ."@)
                }
            },
            None => false,
        },
{
    match text::strip_prefix(path, "/api/lesson/") {
        Some(rest) => {
            let (id, tail) = text::split_once(rest.as_str(), '/');
            if !safe_component(id.as_str()) {
                return refuse(400, "课程 id 不合法：只允许字母、数字、- _ .");
            }
            Route::Lesson { id, part: part_of(tail) }
        },
        None => refuse(404, "路径不对"),
    }
}

/// What reading a path means.
pub fn route(path: &str) -> (r: Route)
    ensures
        is_read(r, path@),
{
    if same(path, "/") || same(path, "/index.html") {
        Route::Page
    } else if same(path, "/api/health") {
        Route::Health
    } else if same(path, "/api/lessons") {
        Route::Lessons
    } else if same(path, "/api/adapters") {
        Route::Adapters
    } else if text::starts_with(path, "/api/lesson/") {
        lesson_route(path)
    } else {
        refuse(404, "没有这个接口")
    }
}

/// What a request means.
pub fn handle(verb: Verb, path: &str, allow_write: bool) -> (r: Route)
    ensures
        is_route(r, verb, path@, allow_write),
{
    match verb {
        Verb::Get => route(path),
        Verb::Post => {
            if !allow_write {
                refuse(403, "写操作未开启：启动时加 --allow-write")
            } else if text::starts_with(path, "/api/adapter/") {
                Route::Patch { path: path.to_owned() }
            } else {
                refuse(404, "没有这个写接口")
            }
        },
        Verb::Other => refuse(405, "只支持 GET，以及开启 --allow-write 后的 POST"),
    }
}

/// Nothing is written unless writing was switched on.
pub proof fn writing_needs_leave(r: Route, verb: Verb, path: Seq<char>)
    requires
        is_route(r, verb, path, false),
    ensures
        !(r is Patch),
{
}

/// A refusal: its code and its words.
#[derive(Debug, Clone)]
pub struct Refusal {
    pub code: u16,
    pub msg: String,
}

/// Whether a path under `/api/adapter/` names a declaration, and which.
pub open spec fn decl_file(path: Seq<char>) -> Result<Seq<char>, (u16, Seq<char>)> {
    match past(path, "/api/adapter/"@) {
        Some(f) => if safe_name(f) && ends(f, ".adapter.json"@) {
            Ok(f)
        } else {
            Err((400, "只能改 adapters.d 下的 *.adapter.json"@))
        },
        None => Err((404, "路径不对"@)),
    }
}

/// What a refusal holds.
pub open spec fn refusal_view(r: Refusal) -> (u16, Seq<char>) {
    (r.code, r.msg@)
}

/// The declaration that a path names.
pub fn patch_file(path: &str) -> (r: Result<String, Refusal>)
    ensures
        match r {
            Ok(f) => decl_file(path@) == Ok::<Seq<char>, (u16, Seq<char>)>(f@),
            Err(e) => decl_file(path@) == Err::<Seq<char>, (u16, Seq<char>)>(refusal_view(e)),
        },
{
    match text::strip_prefix(path, "/api/adapter/") {
        Some(f) => {
            if !safe_component(f.as_str()) || !text::ends_with(f.as_str(), ".adapter.json") {
                return Err(Refusal { code: 400, msg: "只能改 adapters.d 下的 *.adapter.json".to_owned() });
            }
            Ok(f)
        },
        None => Err(Refusal { code: 404, msg: "路径不对".to_owned() }),
    }
}

/// Reads and judges the body of a request to change a declaration.
pub fn patch_adapter(file: &str, body: &str) -> (r: Result<Json, Refusal>)
    ensures
        match parsed(body@) {
            Err(e) => r matches Err(f) && refusal_view(f) == (400u16, "请求体不是 JSON："@ + e),
            Ok(want) => match r {
                Ok(j) => request(file@, want, Ok(j@)),
                Err(f) => f.code == 400 && request(file@, want, Err(f.msg@)),
            },
        },
{
    match Json::parse(body) {
        Err(e) => {
            let mut s = "请求体不是 JSON：".to_owned();
            s.append(e.as_str());
            Err(Refusal { code: 400, msg: s })
        },
        Ok(want) => match merge_decl(file, &want) {
            Ok(j) => Ok(j),
            Err(e) => Err(Refusal { code: 400, msg: e }),
        },
    }
}

/// The answer to a change that was written.
pub open spec fn patch_view(file: Seq<char>, enabled: Option<bool>, changed: bool) -> JsonView {
    let m = Map::<Seq<char>, JsonView>::empty().insert("file"@, JsonView::Str(file));
    let m = match enabled {
        Some(b) => m.insert("enabled"@, JsonView::Bool(b)),
        None => m,
    };
    JsonView::Obj(
        m.insert(
            "note"@,
            JsonView::Str(
                if changed {
                    "已写入：下一节课生效；本节课继续用开课时的参数"@
                } else {
                    "已写入：该源下次被启动时生效"@
                },
            ),
        ),
    )
}

/// The answer to a change that was written.
pub fn patch_reply(file: &str, enabled: Option<bool>, changed: bool) -> (r: Json)
    ensures
        r@ == patch_view(file@, enabled, changed),
{
    let mut o: Vec<(String, Json)> = Vec::new();
    put(&mut o, "file", Json::text(file));
    match enabled {
        Some(b) => put(&mut o, "enabled", Json::Bool(b)),
        None => {},
    }
    put(
        &mut o,
        "note",
        Json::text(
            if changed {
                "已写入：下一节课生效；本节课继续用开课时的参数"
            } else {
                "已写入：该源下次被启动时生效"
            },
        ),
    );
    Json::object(o)
}

/// Reads the body of a request that only switches an adapter.
pub fn toggle_adapter(body: &str) -> (r: Result<bool, Refusal>)
    ensures
        match parsed(body@) {
            Err(e) => r matches Err(f) && refusal_view(f) == (400u16, "请求体不是 JSON："@ + e),
            Ok(want) => match bool_of(field(want, "enabled"@)) {
                Some(b) => r == Ok::<bool, Refusal>(b),
                None => r matches Err(f) && refusal_view(f) == (400u16, "请求体需要 {\"enabled\": true|false}"@),
            },
        },
{
    match Json::parse(body) {
        Err(e) => {
            let mut s = "请求体不是 JSON：".to_owned();
            s.append(e.as_str());
            Err(Refusal { code: 400, msg: s })
        },
        Ok(want) => {
            let b = match want.get("enabled") {
                Some(v) => v.as_bool(),
                None => None,
            };
            match b {
                Some(b) => Ok(b),
                None => Err(Refusal { code: 400, msg: "请求体需要 {\"enabled\": true|false}".to_owned() }),
            }
        },
    }
}

/// The text of a declaration with its switch set.
pub fn toggle_decl(file: &str, text: &str, enabled: bool) -> (r: Result<String, Refusal>)
    ensures
        match parsed(text@) {
            Err(e) => r matches Err(f) && refusal_view(f) == (400u16, file@ + " 本身不是合法 JSON："@ + e),
            Ok(JsonView::Obj(m)) => r matches Ok(s) && s@ == pretty(
                JsonView::Obj(m.insert("enabled"@, JsonView::Bool(enabled))),
            ),
            Ok(_) => r matches Err(f) && refusal_view(f) == (400u16, "声明文件必须是 JSON 对象"@),
        },
{
    match Json::parse(text) {
        Err(e) => {
            let mut s = file.to_owned();
            s.append(" 本身不是合法 JSON：");
            s.append(e.as_str());
            Err(Refusal { code: 400, msg: s })
        },
        Ok(v) => match v {
            Json::Obj(o) => {
                let mut o = o;
                put(&mut o, "enabled", Json::Bool(enabled));
                Ok(Json::object(o).to_pretty())
            },
            _ => Err(Refusal { code: 400, msg: "声明文件必须是 JSON 对象".to_owned() }),
        },
    }
}

/// An edit is let through exactly where it is an object with something in it, names nothing but the
/// switch and the parameters, has a switch that is on or off, and parameters that are an object, not
/// too large, with sane thresholds.
pub proof fn edits_are_let_through(file: Seq<char>, want: JsonView, r: Result<JsonView, Seq<char>>)
    requires
        request(file, want, r),
    ensures
        r is Ok <==> {
            &&& want matches JsonView::Obj(m)
            &&& m.dom() != Set::<Seq<char>>::empty()
            &&& forall|k: Seq<char>| #[trigger] m.contains_key(k) ==> k == "enabled"@ || k == "params"@
            &&& m.contains_key("enabled"@) ==> m["enabled"@] is Bool
            &&& m.contains_key("params"@) ==> {
                &&& m["params"@] is Obj
                &&& field(m["params"@], "vad"@) matches Some(v) ==> vad_fault(v) is None
                &&& size_of(m["params"@]) <= 8192
            }
        },
        r matches Ok(j) ==> j == want,
{
    match want {
        JsonView::Obj(m) => {
            if m.dom() == Set::<Seq<char>>::empty() {
                assert(m =~= Map::<Seq<char>, JsonView>::empty());
            }
            if exists|k: Seq<char>| #[trigger] forbidden(m, k) {
                let k = choose|k: Seq<char>| #[trigger] forbidden(m, k);
                assert(m.contains_key(k) && k != "enabled"@ && k != "params"@);
            } else {
                assert forall|k: Seq<char>| #[trigger] m.contains_key(k) implies k == "enabled"@ || k == "params"@ by {
                    assert(!forbidden(m, k));
                }
            }
        },
        _ => {},
    }
}

/// Thresholds are sane exactly where they are an object, neither is negative, and the one to close is
/// below the one to open wherever both are given.
pub proof fn sane_thresholds_pass(v: JsonView)
    ensures
        vad_fault(v) is None <==> {
            &&& v is Obj
            &&& bits_of(field(v, "rms_open"@)) matches Some(o) ==> double::order_key(o) >= 0
            &&& bits_of(field(v, "rms_close"@)) matches Some(c) ==> double::order_key(c) >= 0
            &&& bits_of(field(v, "rms_open"@)) matches Some(o) ==> (bits_of(field(v, "rms_close"@)) matches Some(c)
                ==> double::order_key(c) < double::order_key(o))
        },
{
}

/// An edit takes effect: the switch stands as it asks, and of the parameters those that it names are
/// as it gives them and the others as they were.
pub proof fn edits_take_effect(file: Seq<char>, want: JsonView, decl: Map<Seq<char>, JsonView>, r: JsonView, k: Seq<char>)
    requires
        request(file, want, Ok(want)),
        patched(r, decl, want),
    ensures
        bool_of(field(want, "enabled"@)) matches Some(b) ==> field(r, "enabled"@) == Some(JsonView::Bool(b)),
        field(want, "enabled"@) is None ==> field(r, "enabled"@) == field(JsonView::Obj(decl), "enabled"@),
        field(want, "params"@) is None ==> field(r, "params"@) == field(JsonView::Obj(decl), "params"@),
        field(want, "params"@) matches Some(p) ==> (field(r, "params"@) matches Some(q) && {
            &&& field(p, k) matches Some(v) ==> (!(v is Obj) ==> field(q, k) == Some(v))
            &&& decl.contains_key("params"@) && decl["params"@] is Obj && field(p, k) is None ==> field(q, k) == field(
                decl["params"@],
                k,
            )
            &&& !decl.contains_key("params"@) || !(decl["params"@] is Obj) ==> q == p
        }),
{
    reveal_strlit("enabled");
    reveal_strlit("params");
    assert("enabled"@.len() != "params"@.len());
    let m = want->Obj_0;
    assert(want is Obj);
    let s = JsonView::Obj(switched(decl, want));
    match field(want, "params"@) {
        Some(p) => {
            let n = r->Obj_0;
            let d = switched(decl, want);
            assert(n.contains_key("params"@));
            assert(m.contains_key("params"@));
            assert(params_fault(file, m["params"@]) is None);
            assert(p is Obj);
            if m.contains_key("enabled"@) {
                assert(m["enabled"@] is Bool);
                merge_sets_members(r, s, want, "enabled"@);
            } else {
                merge_keeps_siblings(r, s, want, "enabled"@);
            }
            if d.contains_key("params"@) && d["params"@] is Obj {
                assert(is_merge(n["params"@], d["params"@], p));
                match field(p, k) {
                    Some(v) => {
                        if !(v is Obj) {
                            merge_sets_members(n["params"@], d["params"@], p, k);
                        }
                    },
                    None => {
                        merge_keeps_siblings(n["params"@], d["params"@], p, k);
                    },
                }
            }
        },
        None => {},
    }
}

/// No name that is not safe is ever looked up: a lesson or a blob is asked for by a safe name only, and
/// a declaration by the safe name of one.
pub proof fn names_are_checked(r: Route, verb: Verb, path: Seq<char>, allow_write: bool)
    requires
        is_route(r, verb, path, allow_write),
    ensures
        r matches Route::Lesson { id, part } ==> verb == Verb::Get && safe_name(id@) && (part matches Part::Blob { name }
            ==> safe_name(name@)),
        r is Patch ==> verb == Verb::Post && allow_write && begins(path, "/api/adapter/"@),
        verb == Verb::Post && allow_write && begins(path, "/api/adapter/"@) ==> r is Patch,
        decl_file(path) matches Ok(f) ==> safe_name(f) && ends(f, ".adapter.json"@) && path == "/api/adapter/"@ + f,
{
    match decl_file(path) {
        Ok(f) => {
            let p = "/api/adapter/"@;
            assert(path.subrange(0, p.len() as int) == p);
            assert(path =~= path.subrange(0, p.len() as int) + path.skip(p.len() as int));
        },
        Err(_) => {},
    }
}

/// The type of a file goes by what stands behind the last dot of its name, in small letters or in large
/// ones; a file of which nothing is known is plain bytes.
pub proof fn endings_tell_types(stem: Seq<char>, ext: Seq<char>)
    requires
        !ext.contains('.'),
    ensures
        lowered(ext) == "png"@ ==> mime(stem + seq!['.'] + ext) == "image/png"@,
        lowered(ext) == "jpg"@ ==> mime(stem + seq!['.'] + ext) == "image/jpeg"@,
        lowered(ext) == "jpeg"@ ==> mime(stem + seq!['.'] + ext) == "image/jpeg"@,
        lowered(ext) == "webp"@ ==> mime(stem + seq!['.'] + ext) == "image/webp"@,
        lowered(ext) == "gif"@ ==> mime(stem + seq!['.'] + ext) == "image/gif"@,
        lowered(ext) == "wav"@ ==> mime(stem + seq!['.'] + ext) == "audio/wav"@,
        lowered(ext) == "ogg"@ ==> mime(stem + seq!['.'] + ext) == "audio/ogg"@,
        lowered(ext) == "opus"@ ==> mime(stem + seq!['.'] + ext) == "audio/opus"@,
        lowered(ext) == "mp3"@ ==> mime(stem + seq!['.'] + ext) == "audio/mpeg"@,
        lowered(ext) == "json"@ ==> mime(stem + seq!['.'] + ext) == "application/json; charset=utf-8"@,
        lowered(ext) == "txt"@ ==> mime(stem + seq!['.'] + ext) == "text/plain; charset=utf-8"@,
        lowered(ext) == "vtt"@ ==> mime(stem + seq!['.'] + ext) == "text/plain; charset=utf-8"@,
        lowered(ext) == "md"@ ==> mime(stem + seq!['.'] + ext) == "text/plain; charset=utf-8"@,
        lowered(ext) != "png"@ && lowered(ext) != "jpg"@ && lowered(ext) != "jpeg"@ && lowered(ext) != "webp"@ && lowered(ext) != "gif"@ && lowered(ext) != "wav"@ && lowered(ext) != "ogg"@ && lowered(ext) != "opus"@ && lowered(ext) != "mp3"@ && lowered(ext) != "json"@ && lowered(ext) != "txt"@ && lowered(ext) != "vtt"@ && lowered(ext) != "md"@ ==> mime(
            stem + seq!['.'] + ext,
        ) == "application/octet-stream"@,
{
    text::lemma_behind_mark(stem, '.', ext);
    reveal_strlit("png");
    reveal_strlit("jpg");
    reveal_strlit("jpeg");
    reveal_strlit("webp");
    reveal_strlit("gif");
    reveal_strlit("wav");
    reveal_strlit("ogg");
    reveal_strlit("opus");
    reveal_strlit("mp3");
    reveal_strlit("json");
    reveal_strlit("txt");
    reveal_strlit("vtt");
    reveal_strlit("md");
    assert("png"@.len() == 3);
    assert("jpg"@.len() == 3);
    assert("jpeg"@.len() == 4);
    assert("webp"@.len() == 4);
    assert("gif"@.len() == 3);
    assert("wav"@.len() == 3);
    assert("ogg"@.len() == 3);
    assert("opus"@.len() == 4);
    assert("mp3"@.len() == 3);
    assert("json"@.len() == 4);
    assert("txt"@.len() == 3);
    assert("vtt"@.len() == 3);
    assert("md"@.len() == 2);
    assert("png"@[0] != "jpg"@[0]);
    assert("png"@ != "jpg"@);
    assert("png"@[0] != "gif"@[0]);
    assert("png"@ != "gif"@);
    assert("png"@[0] != "wav"@[0]);
    assert("png"@ != "wav"@);
    assert("png"@[0] != "ogg"@[0]);
    assert("png"@ != "ogg"@);
    assert("png"@[0] != "mp3"@[0]);
    assert("png"@ != "mp3"@);
    assert("png"@[0] != "txt"@[0]);
    assert("png"@ != "txt"@);
    assert("png"@[0] != "vtt"@[0]);
    assert("png"@ != "vtt"@);
    assert("jpg"@[0] != "gif"@[0]);
    assert("jpg"@ != "gif"@);
    assert("jpg"@[0] != "wav"@[0]);
    assert("jpg"@ != "wav"@);
    assert("jpg"@[0] != "ogg"@[0]);
    assert("jpg"@ != "ogg"@);
    assert("jpg"@[0] != "mp3"@[0]);
    assert("jpg"@ != "mp3"@);
    assert("jpg"@[0] != "txt"@[0]);
    assert("jpg"@ != "txt"@);
    assert("jpg"@[0] != "vtt"@[0]);
    assert("jpg"@ != "vtt"@);
    assert("jpeg"@[0] != "webp"@[0]);
    assert("jpeg"@ != "webp"@);
    assert("jpeg"@[0] != "opus"@[0]);
    assert("jpeg"@ != "opus"@);
    assert("jpeg"@[1] != "json"@[1]);
    assert("jpeg"@ != "json"@);
    assert("webp"@[0] != "opus"@[0]);
    assert("webp"@ != "opus"@);
    assert("webp"@[0] != "json"@[0]);
    assert("webp"@ != "json"@);
    assert("gif"@[0] != "wav"@[0]);
    assert("gif"@ != "wav"@);
    assert("gif"@[0] != "ogg"@[0]);
    assert("gif"@ != "ogg"@);
    assert("gif"@[0] != "mp3"@[0]);
    assert("gif"@ != "mp3"@);
    assert("gif"@[0] != "txt"@[0]);
    assert("gif"@ != "txt"@);
    assert("gif"@[0] != "vtt"@[0]);
    assert("gif"@ != "vtt"@);
    assert("wav"@[0] != "ogg"@[0]);
    assert("wav"@ != "ogg"@);
    assert("wav"@[0] != "mp3"@[0]);
    assert("wav"@ != "mp3"@);
    assert("wav"@[0] != "txt"@[0]);
    assert("wav"@ != "txt"@);
    assert("wav"@[0] != "vtt"@[0]);
    assert("wav"@ != "vtt"@);
    assert("ogg"@[0] != "mp3"@[0]);
    assert("ogg"@ != "mp3"@);
    assert("ogg"@[0] != "txt"@[0]);
    assert("ogg"@ != "txt"@);
    assert("ogg"@[0] != "vtt"@[0]);
    assert("ogg"@ != "vtt"@);
    assert("opus"@[0] != "json"@[0]);
    assert("opus"@ != "json"@);
    assert("mp3"@[0] != "txt"@[0]);
    assert("mp3"@ != "txt"@);
    assert("mp3"@[0] != "vtt"@[0]);
    assert("mp3"@ != "vtt"@);
    assert("txt"@[0] != "vtt"@[0]);
    assert("txt"@ != "vtt"@);
}

/// Lessons are found by their names, and their parts by the words behind them: all of it, the figures, the
/// page, or a file of it by its safe name.
pub proof fn lessons_are_found_by_name(r: Route, id: Seq<char>, rest: Seq<char>, name: Seq<char>)
    requires
        safe_name(id),
        safe_name(name),
        rest.len() > 0 ==> rest[0] == '/',
        is_read(r, "/api/lesson/"@ + (id + rest)),
    ensures
        r matches Route::Lesson { id: i, part } && i@ == id && {
            &&& rest.len() == 0 ==> part is Whole
            &&& rest == seq!['/'] + "stats"@ ==> part is Stats
            &&& rest == seq!['/'] + "digest"@ ==> part is Digest
            &&& rest == seq!['/'] + ("blob"@ + (seq!['/'] + name)) ==> (part matches Part::Blob { name: n } && n@ == name)
        },
{
    let p = "/api/lesson/"@;
    let path = p + (id + rest);
    reveal_strlit("/api/lesson/");
    reveal_strlit("/api/lessons");
    reveal_strlit("/api/health");
    reveal_strlit("/api/adapters");
    reveal_strlit("/index.html");
    reveal_strlit("/");
    reveal_strlit("stats");
    reveal_strlit("digest");
    reveal_strlit("blob");
    assert(p.len() == 12 && "/api/lessons"@.len() == 12 && "/api/health"@.len() == 11 && "/index.html"@.len() == 11 && "/"@.len()
        == 1 && "/api/adapters"@.len() == 13);
    assert(path.len() > 12);
    assert(path[5] == p[5]);
    assert(p[5] == 'l' && "/api/adapters"@[5] == 'a');
    assert(path != "/api/adapters"@);
    assert(path.subrange(0, p.len() as int) =~= p);
    assert(path.skip(p.len() as int) =~= id + rest);
    crate::schema::safe_name_stays_inside(id);
    if id.contains('/') {
        let i = choose|i: int| 0 <= i < id.len() && id[i] == '/';
        assert(id[i] != '/');
    }
    text::lemma_cut_behind(id, rest, '/');
    assert("stats"@.len() == 5 && "digest"@.len() == 6 && "blob"@.len() == 4);
    if "stats"@.contains('/') || "digest"@.contains('/') || "blob"@.contains('/') {
        assert(forall|i: int| 0 <= i < 5 ==> #[trigger] "stats"@[i] != '/');
        assert(forall|i: int| 0 <= i < 6 ==> #[trigger] "digest"@[i] != '/');
        assert(forall|i: int| 0 <= i < 4 ==> #[trigger] "blob"@[i] != '/');
    }
    text::lemma_cut_behind("stats"@, Seq::empty(), '/');
    text::lemma_cut_behind("digest"@, Seq::empty(), '/');
    text::lemma_cut_behind("blob"@, seq!['/'] + name, '/');
    assert("stats"@ + Seq::<char>::empty() =~= "stats"@);
    assert("digest"@ + Seq::<char>::empty() =~= "digest"@);
    assert((seq!['/'] + "stats"@).drop_first() =~= "stats"@);
    assert((seq!['/'] + "digest"@).drop_first() =~= "digest"@);
    assert((seq!['/'] + ("blob"@ + (seq!['/'] + name))).drop_first() =~= "blob"@ + (seq!['/'] + name));
    assert((seq!['/'] + name).drop_first() =~= name);
}

} // verus!
