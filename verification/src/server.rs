//! The upload server: which request means what, what an upload is answered, and the work order
//! that goes with it.

use vstd::prelude::*;
use crate::board::by_name;
use crate::board::insert_row;
use crate::board::row_views;
use crate::board::rows_stay_by_name;
use crate::board::slot;
use crate::board::Row;
use crate::fold::lemma_take_all;
use crate::fold::lemma_take_more;
use crate::json::field;
use crate::json::json_views;
use crate::json::object_of;
use crate::json::object_view;
use crate::json::pretty;
use crate::json::put;
use crate::json::ref_json;
use crate::json::Json;
use crate::json::JsonView;
use crate::json::NumberView;
use crate::schema::safe_component;
use crate::schema::safe_name;
use crate::schema::IngestAck;
use crate::schema::LessonUpload;
use crate::schema::PROTO;
use crate::screen::number;
use crate::serve::Refusal;
use crate::serve::Verb;
use crate::text;
use crate::text::dec;
use crate::text::head_of;
use crate::text::insert_name;
use crate::text::lowered;
use crate::text::name_list;
use crate::text::opt_view;
use crate::text::past;
use crate::text::same;
use crate::text::tail_of;
use crate::text::views;

verus! {

/// What the server is started with.
#[derive(Debug, Clone)]
pub struct Config {
    pub listen: String,
    pub data: String,
    pub token: Option<String>,
    /// Whether only the usage is asked for.
    pub help: bool,
    /// Arguments that mean nothing.
    pub ignored: Vec<String>,
}

/// What a configuration holds.
pub struct ConfigView {
    pub listen: Seq<char>,
    pub data: Seq<char>,
    pub token: Option<Seq<char>>,
    pub help: bool,
    pub ignored: Seq<Seq<char>>,
}

impl View for Config {
    type V = ConfigView;

    open spec fn view(&self) -> ConfigView {
        ConfigView {
            listen: self.listen@,
            data: self.data@,
            token: opt_view(self.token),
            help: self.help,
            ignored: views(self.ignored@),
        }
    }
}

/// The configuration after the arguments from `i` on. Reading stops where the usage is asked for.
pub open spec fn configured(c: ConfigView, args: Seq<Seq<char>>, i: int) -> ConfigView
    decreases args.len() + 1 - i,
{
    if i >= args.len() || i < 0 {
        c
    } else {
        let a = args[i];
        let v = if i + 1 < args.len() {
            Some(args[i + 1])
        } else {
            None
        };
        if a == "--listen"@ {
            configured(
                match v {
                    Some(v) => ConfigView { listen: v, ..c },
                    None => c,
                },
                args,
                i + 2,
            )
        } else if a == "--data"@ {
            configured(
                match v {
                    Some(v) => ConfigView { data: v, ..c },
                    None => c,
                },
                args,
                i + 2,
            )
        } else if a == "--token"@ {
            configured(
                match v {
                    Some(v) => ConfigView { token: Some(v), ..c },
                    None => c,
                },
                args,
                i + 2,
            )
        } else if a == "--help"@ || a == "-h"@ {
            ConfigView { help: true, ..c }
        } else {
            configured(ConfigView { ignored: c.ignored.push(a), ..c }, args, i + 1)
        }
    }
}

/// The configuration without arguments.
pub open spec fn unconfigured() -> ConfigView {
    ConfigView {
        listen: "127.0.0.1:8790"@,
        data: "server-data"@,
        token: None,
        help: false,
        ignored: Seq::empty(),
    }
}

/// The configuration that some arguments ask for.
pub fn parse_args(args: &Vec<String>) -> (r: Config)
    ensures
        r@ == configured(unconfigured(), views(args@), 0),
{
    let ghost x = views(args@);
    let mut c = Config {
        listen: "127.0.0.1:8790".to_owned(),
        data: "server-data".to_owned(),
        token: None,
        help: false,
        ignored: Vec::new(),
    };
    assert(views(c.ignored@) =~= Seq::<Seq<char>>::empty());
    let n: usize = args.len();
    let mut i: usize = 0;
    while i < n
        invariant
            n == args@.len(),
            x == views(args@),
            i <= n,
            configured(unconfigured(), x, 0) == configured(c@, x, i as int),
        decreases n - i,
    {
        let a = args[i].as_str();
        assert(x[i as int] == a@);
        let has_value = i + 1 < n;
        proof {
            reveal_with_fuel(configured, 3);
        }
        if same(a, "--listen") {
            if has_value {
                assert(x[i + 1] == args@[i + 1]@);
                c.listen = args[i + 1].clone();
            }
            i = if has_value {
                i + 2
            } else {
                n
            };
        } else if same(a, "--data") {
            if has_value {
                assert(x[i + 1] == args@[i + 1]@);
                c.data = args[i + 1].clone();
            }
            i = if has_value {
                i + 2
            } else {
                n
            };
        } else if same(a, "--token") {
            if has_value {
                assert(x[i + 1] == args@[i + 1]@);
                c.token = Some(args[i + 1].clone());
            }
            i = if has_value {
                i + 2
            } else {
                n
            };
        } else if same(a, "--help") || same(a, "-h") {
            c.help = true;
            return c;
        } else {
            text::push_text(&mut c.ignored, args[i].clone());
            i += 1;
        }
    }
    c
}

// ---------------------------------------------------------------------------------------------
// Requests
// ---------------------------------------------------------------------------------------------

/// What a request means.
#[derive(Debug, Clone)]
pub enum Route {
    Health,
    Lessons,
    /// The payload of a lesson.
    Payload { id: String },
    /// The work order of a lesson.
    AiRequest { id: String },
    Ingest,
    Refuse { code: u16, msg: String },
}

/// Whether `r` refuses with this code and these words.
pub open spec fn refuses(r: Route, code: u16, msg: Seq<char>) -> bool {
    r matches Route::Refuse { code: c, msg: m } && c == code && m@ == msg
}

/// What a path under a lesson means.
pub open spec fn is_lesson(r: Route, rest: Seq<char>) -> bool {
    let id = head_of(rest, '/');
    if !safe_name(id) {
        refuses(r, 400, "课程 id 不合法：只允许字母、数字、- _ ."@)
    } else {
        match tail_of(rest, '/') {
            None => r matches Route::Payload { id: i } && i@ == id,
            Some(t) => if t == "payload"@ {
                r matches Route::Payload { id: i } && i@ == id
            } else if t == "ai-request"@ {
                r matches Route::AiRequest { id: i } && i@ == id
            } else {
                refuses(r, 404, "没有这个接口"@)
            },
        }
    }
}

/// What reading a path means.
pub open spec fn is_read(r: Route, path: Seq<char>) -> bool {
    if path == "/"@ || path == "/health"@ {
        r is Health
    } else if path == "/api/lessons"@ {
        r is Lessons
    } else {
        match past(path, "/api/lesson/"@) {
            Some(rest) => is_lesson(r, rest),
            None => refuses(r, 404, "没有这个接口"@),
        }
    }
}

/// What a request means. An upload needs to be authorized.
pub open spec fn is_route(r: Route, verb: Verb, path: Seq<char>, authorized: bool) -> bool {
    match verb {
        Verb::Get => is_read(r, path),
        Verb::Post => if path == "/api/ingest"@ {
            if authorized {
                r is Ingest
            } else {
                refuses(r, 401, "缺少或错误的 X-ClassAgent-Token"@)
            }
        } else {
            refuses(r, 404, "没有这个写接口"@)
        },
        Verb::Other => refuses(r, 405, "只支持 GET，以及 POST /api/ingest"@),
    }
}

fn refuse(code: u16, msg: &str) -> (r: Route)
    ensures
        refuses(r, code, msg@),
{
    Route::Refuse { code, msg: msg.to_owned() }
}

/// What a path under a lesson means.
pub fn lesson_route(rest: &str) -> (r: Route)
    ensures
        is_lesson(r, rest@),
{
    let (id, tail) = text::split_once(rest, '/');
    if !safe_component(id.as_str()) {
        return refuse(400, "课程 id 不合法：只允许字母、数字、- _ .");
    }
    match tail {
        None => Route::Payload { id },
        Some(t) => {
            if same(t.as_str(), "payload") {
                Route::Payload { id }
            } else if same(t.as_str(), "ai-request") {
                Route::AiRequest { id }
            } else {
                refuse(404, "没有这个接口")
            }
        },
    }
}

/// What reading a path means.
pub fn route(path: &str) -> (r: Route)
    ensures
        is_read(r, path@),
{
    if same(path, "/") || same(path, "/health") {
        Route::Health
    } else if same(path, "/api/lessons") {
        Route::Lessons
    } else {
        match text::strip_prefix(path, "/api/lesson/") {
            Some(rest) => lesson_route(rest.as_str()),
            None => refuse(404, "没有这个接口"),
        }
    }
}

/// What a request means. An upload needs to be authorized.
pub fn handle(verb: Verb, path: &str, authorized: bool) -> (r: Route)
    ensures
        is_route(r, verb, path@, authorized),
{
    match verb {
        Verb::Get => route(path),
        Verb::Post => {
            if same(path, "/api/ingest") {
                if authorized {
                    Route::Ingest
                } else {
                    refuse(401, "缺少或错误的 X-ClassAgent-Token")
                }
            } else {
                refuse(404, "没有这个写接口")
            }
        },
        Verb::Other => refuse(405, "只支持 GET，以及 POST /api/ingest"),
    }
}

/// Whether the first header that carries a token carries this one.
pub open spec fn carries(headers: Seq<(String, String)>, token: Seq<char>) -> bool
    decreases headers.len(),
{
    if headers.len() == 0 {
        false
    } else if lowered(headers[0].0@) == lowered("x-classagent-token"@) {
        headers[0].1@ == token
    } else {
        carries(headers.drop_first(), token)
    }
}

/// Whether a request may write: always where no token is asked for, else with that token only.
pub fn authorized(token: Option<&str>, headers: &Vec<(String, String)>) -> (r: bool)
    ensures
        r == (match token {
            Some(t) => carries(headers@, t@),
            None => true,
        }),
{
    let t = match token {
        Some(t) => t,
        None => {
            return true;
        },
    };
    let want = text::to_lower("x-classagent-token");
    let mut i: usize = 0;
    assert(headers@.skip(0) =~= headers@);
    while i < headers.len()
        invariant
            i <= headers@.len(),
            token == Some(t),
            want@ == lowered("x-classagent-token"@),
            carries(headers@, t@) == carries(headers@.skip(i as int), t@),
        decreases headers@.len() - i,
    {
        let (k, v) = &headers[i];
        proof {
            assert(headers@.skip(i as int)[0] == headers@[i as int]);
            assert(headers@.skip(i as int).drop_first() =~= headers@.skip(i + 1));
        }
        if same(text::to_lower(k.as_str()).as_str(), want.as_str()) {
            return same(v.as_str(), t);
        }
        i += 1;
    }
    false
}

// ---------------------------------------------------------------------------------------------
// Uploads
// ---------------------------------------------------------------------------------------------

/// What is wrong with an upload: none where it is taken.
pub open spec fn upload_fault(up: LessonUpload) -> Option<Seq<char>> {
    if up.proto != PROTO {
        Some("协议版本不符：客户端报 v"@ + dec(up.proto as int) + "，服务端 v"@ + dec(PROTO as int))
    } else if !safe_name(up.lesson_id@) {
        Some("课程 id 不合法"@)
    } else {
        None
    }
}

/// Whether an upload is taken. The refusal says why not.
pub fn check_upload(up: &LessonUpload) -> (r: Result<(), Refusal>)
    ensures
        match r {
            Ok(_) => upload_fault(*up) is None,
            Err(e) => e.code == 400 && upload_fault(*up) == Some(e.msg@),
        },
{
    if up.proto != PROTO {
        let mut s = "协议版本不符：客户端报 v".to_owned();
        text::push_dec(&mut s, up.proto as u64);
        s.append("，服务端 v");
        text::push_dec(&mut s, PROTO as u64);
        return Err(Refusal { code: 400, msg: s });
    }
    if !safe_component(up.lesson_id.as_str()) {
        return Err(Refusal { code: 400, msg: "课程 id 不合法".to_owned() });
    }
    Ok(())
}

/// The file that the payload of a lesson goes to.
pub open spec fn payload_file(id: Seq<char>) -> Seq<char> {
    id + ".ai_payload.json"@
}

/// The file that the payload of a lesson goes to.
pub fn payload_name(id: &str) -> (r: String)
    ensures
        r@ == payload_file(id@),
{
    let mut s = id.to_owned();
    s.append(".ai_payload.json");
    s
}

/// The file that the work order of a lesson goes to.
pub fn request_name(id: &str) -> (r: String)
    ensures
        r@ == id@ + ".ai_request.json"@,
{
    let mut s = id.to_owned();
    s.append(".ai_request.json");
    s
}

/// The lesson whose payload a file holds, by its name.
pub open spec fn payload_stem(name: Seq<char>) -> Option<Seq<char>> {
    if text::ends(name, ".ai_payload.json"@) {
        Some(name.take(name.len() - ".ai_payload.json"@.len()))
    } else {
        None
    }
}

/// The lesson whose payload a file holds, by its name.
pub fn payload_lesson(name: &str) -> (r: Option<String>)
    ensures
        opt_view(r) == payload_stem(name@),
        r matches Some(id) ==> name@ == payload_file(id@),
{
    if !text::ends_with(name, ".ai_payload.json") {
        return None;
    }
    let v = text::chars_of(name);
    let k: usize = ".ai_payload.json".unicode_len();
    let id = text::text_of(v.as_slice(), 0, v.len() - k);
    assert(name@ =~= id@ + ".ai_payload.json"@) by {
        assert(name@.subrange(name@.len() - ".ai_payload.json"@.len(), name@.len() as int) == ".ai_payload.json"@);
        assert(name@ =~= name@.subrange(0, name@.len() - k) + name@.subrange(name@.len() - k, name@.len() as int));
    }
    Some(id)
}

/// Whether bytes are those of a text.
fn same_bytes(a: &[u8], b: &[u8]) -> (r: bool)
    ensures
        r == (a@ == b@),
{
    if a.len() != b.len() {
        return false;
    }
    let mut i: usize = 0;
    while i < a.len()
        invariant
            i <= a@.len(),
            a@.len() == b@.len(),
            forall|j: int| 0 <= j < i ==> a@[j] == b@[j],
        decreases a@.len() - i,
    {
        if a[i] != b[i] {
            return false;
        }
        i += 1;
    }
    assert(a@ =~= b@);
    true
}

/// What was stored before, if anything was.
pub open spec fn stored_view(stored: Option<&[u8]>) -> Option<Seq<u8>> {
    match stored {
        Some(b) => Some(b@),
        None => None,
    }
}

/// Whether a payload is not what was stored before, byte for byte.
pub open spec fn is_new(text: Seq<char>, stored: Option<Seq<u8>>) -> bool {
    stored != Some(vstd::utf8::encode_utf8(text))
}

/// What is stored once an upload was taken: the payload where it is new, else what was there.
pub open spec fn stored_after(text: Seq<char>, stored: Option<Seq<u8>>) -> Option<Seq<u8>> {
    if is_new(text, stored) {
        Some(vstd::utf8::encode_utf8(text))
    } else {
        stored
    }
}

/// Whether a payload is written, and whether it was there already: by the bytes stored before.
pub fn judge_payload(text: &str, stored: Option<&[u8]>) -> (r: (bool, bool))
    ensures
        r.0 == is_new(text@, stored_view(stored)),
        r.1 == !r.0,
{
    match stored {
        Some(b) => {
            let eq = same_bytes(b, text.as_bytes());
            (!eq, eq)
        },
        None => (true, false),
    }
}

/// Taking the same upload twice is taking it once: whatever was stored before, the payload is
/// stored then, and the second time it was there already.
pub proof fn uploads_are_idempotent(text: Seq<char>, stored: Option<Seq<u8>>)
    ensures
        stored_after(text, stored) == Some(vstd::utf8::encode_utf8(text)),
        !is_new(text, stored_after(text, stored)),
        stored_after(text, stored_after(text, stored)) == stored_after(text, stored),
{
}

/// One of the projections that a work order asks for.
pub open spec fn projection(name: Seq<char>, mode: Seq<char>, note: Seq<char>) -> JsonView {
    JsonView::Obj(
        Map::<Seq<char>, JsonView>::empty().insert("name"@, JsonView::Str(name)).insert("mode"@, JsonView::Str(mode)).insert(
            "note"@,
            JsonView::Str(note),
        ),
    )
}

/// The projections that a work order asks for.
pub open spec fn projections() -> Seq<JsonView> {
    seq![
        projection(
            "observe_log"@,
            "rule_then_model"@,
            "3 秒采样先机械编码（规则活），再让模型判类；不与语义压缩混进同一 prompt"@,
        ),
        projection("lesson_notes"@, "model"@, "语义压缩（模型活）"@),
        projection("activity_analysis"@, "model"@, "活动结构分析"@),
        projection("next_steps"@, "model"@, "后续建议；衔接 prev_lesson_id 显式链，非向量检索"@),
    ]
}

/// A member of a document, `null` where it is missing.
pub open spec fn or_null(j: Option<JsonView>) -> JsonView {
    match j {
        Some(x) => x,
        None => JsonView::Null,
    }
}

/// Whether `s` holds, ascending, the names of the members of `j`; nothing where it is no object.
pub open spec fn names_of(s: Seq<Seq<char>>, j: Option<JsonView>) -> bool {
    &&& forall|a: int, b: int|
        0 <= a < b < s.len() ==> text::text_le(#[trigger] s[a], #[trigger] s[b]) && s[a] != s[b]
    &&& forall|k: Seq<char>| #[trigger] s.contains(k) <==> (object_of(j) matches Some(m) && m.contains_key(k))
}

/// The work order of a lesson, given the names of its sources.
pub open spec fn order_view(up: LessonUpload, received_at: u64, sources: Seq<Seq<char>>) -> JsonView {
    JsonView::Obj(
        Map::<Seq<char>, JsonView>::empty().insert(
            "proto"@,
            JsonView::Number(NumberView::Pos(PROTO as u64)),
        ).insert("lesson_id"@, JsonView::Str(up.lesson_id@)).insert(
            "received_at_utc_ms"@,
            JsonView::Number(NumberView::Pos(received_at)),
        ).insert("source"@, JsonView::Str(up.source@)).insert(
            "payload_ref"@,
            JsonView::Str("inbox/"@ + payload_file(up.lesson_id@)),
        ).insert("prev_lesson_id"@, or_null(field(up.ai_payload@, "prev_lesson_id"@))).insert(
            "stats"@,
            or_null(field(up.ai_payload@, "stats"@)),
        ).insert("sources"@, JsonView::Arr(sources.map_values(|s: Seq<char>| JsonView::Str(s)))).insert(
            "projections"@,
            JsonView::Arr(projections()),
        ).insert("handoff"@, JsonView::Str("服务端到此为止：真正的 ASR/LLM 调用是这一步之外的下游"@)),
    )
}

proof fn lemma_ascending_unique(s: Seq<Seq<char>>, t: Seq<Seq<char>>)
    requires
        forall|a: int, b: int|
            0 <= a < b < s.len() ==> text::text_le(#[trigger] s[a], #[trigger] s[b]) && s[a] != s[b],
        forall|a: int, b: int|
            0 <= a < b < t.len() ==> text::text_le(#[trigger] t[a], #[trigger] t[b]) && t[a] != t[b],
        forall|k: Seq<char>| #[trigger] s.contains(k) <==> t.contains(k),
    ensures
        s == t,
    decreases s.len(),
{
    if s.len() == 0 {
        if t.len() > 0 {
            assert(t.contains(t[0]));
            assert(s.contains(t[0]));
        }
        assert(s =~= t);
    } else {
        let x = s[s.len() - 1];
        assert(s.contains(x));
        assert(t.contains(x));
        let p = choose|p: int| 0 <= p < t.len() && t[p] == x;
        let y = t[t.len() - 1];
        assert(t.contains(y));
        assert(s.contains(y));
        let q = choose|q: int| 0 <= q < s.len() && s[q] == y;
        if x != y {
            text::text_le_antisymmetric(x, y);
        }
        let s0 = s.drop_last();
        let t0 = t.drop_last();
        assert forall|k: Seq<char>| #[trigger] s0.contains(k) <==> t0.contains(k) by {
            if s0.contains(k) {
                let i = choose|i: int| 0 <= i < s0.len() && s0[i] == k;
                assert(s[i] == k && k != x);
                assert(s.contains(k));
                assert(t.contains(k));
                let j = choose|j: int| 0 <= j < t.len() && t[j] == k;
                assert(t0[j] == k);
            }
            if t0.contains(k) {
                let i = choose|i: int| 0 <= i < t0.len() && t0[i] == k;
                assert(t[i] == k && k != y);
                assert(t.contains(k));
                assert(s.contains(k));
                let j = choose|j: int| 0 <= j < s.len() && s[j] == k;
                assert(s0[j] == k);
            }
        }
        lemma_ascending_unique(s0, t0);
        assert(s =~= s0.push(x));
        assert(t =~= t0.push(y));
    }
}

/// Whether two uploads say the same.
pub open spec fn same_upload(a: LessonUpload, b: LessonUpload) -> bool {
    a.lesson_id@ == b.lesson_id@ && a.source@ == b.source@ && a.ai_payload@ == b.ai_payload@
}

/// A work order depends on the upload and on the time of its receipt, and on nothing else: of the
/// same upload, orders of the same time are the same, and orders of two times tell them apart by
/// nothing but that time.
pub proof fn orders_depend_on_uploads(
    a: LessonUpload,
    b: LessonUpload,
    first: u64,
    second: u64,
    names: Seq<Seq<char>>,
    again: Seq<Seq<char>>,
)
    requires
        same_upload(a, b),
        names_of(names, field(a.ai_payload@, "sources"@)),
        names_of(again, field(b.ai_payload@, "sources"@)),
    ensures
        order_view(a, first, names) == order_view(b, first, again),
        (order_view(a, first, names)->Obj_0).remove("received_at_utc_ms"@) == (order_view(b, second, again)->Obj_0).remove(
            "received_at_utc_ms"@,
        ),
        order_view(a, first, names)->Obj_0.contains_key("received_at_utc_ms"@),
{
    lemma_ascending_unique(names, again);
    let m = order_view(a, first, names)->Obj_0;
    let n = order_view(b, second, again)->Obj_0;
    assert(m.remove("received_at_utc_ms"@) =~= n.remove("received_at_utc_ms"@));
}

fn copied(j: Option<&Json>) -> (r: Json)
    ensures
        r@ == or_null(ref_json(j)),
{
    match j {
        Some(x) => x.copy(),
        None => Json::Null,
    }
}

fn make_projection(name: &str, mode: &str, note: &str) -> (r: Json)
    ensures
        r@ == projection(name@, mode@, note@),
{
    let mut o: Vec<(String, Json)> = Vec::new();
    put(&mut o, "name", Json::text(name));
    put(&mut o, "mode", Json::text(mode));
    put(&mut o, "note", Json::text(note));
    Json::object(o)
}

fn make_projections() -> (r: Json)
    ensures
        r@ == JsonView::Arr(projections()),
{
    let mut v: Vec<Json> = Vec::new();
    v.push(
        make_projection(
            "observe_log",
            "rule_then_model",
            "3 秒采样先机械编码（规则活），再让模型判类；不与语义压缩混进同一 prompt",
        ),
    );
    v.push(make_projection("lesson_notes", "model", "语义压缩（模型活）"));
    v.push(make_projection("activity_analysis", "model", "活动结构分析"));
    v.push(make_projection("next_steps", "model", "后续建议；衔接 prev_lesson_id 显式链，非向量检索"));
    proof {
        crate::json::lemma_json_views(v@);
        assert(json_views(v@) =~= projections());
    }
    Json::array(v)
}

/// The names of the sources in a payload, ascending.
pub fn source_names(payload: &Json) -> (r: Vec<String>)
    ensures
        names_of(views(r@), field(payload@, "sources"@)),
{
    let mut out: Vec<String> = Vec::new();
    let obj = match payload.get("sources") {
        Some(s) => s.as_object(),
        None => None,
    };
    match obj {
        Some(o) => {
            let ghost x = o@.map_values(|p: (String, Json)| p.0@);
            let mut i: usize = 0;
            assert(views(out@) =~= Seq::<Seq<char>>::empty());
            while i < o.len()
                invariant
                    i <= o@.len(),
                    x == o@.map_values(|p: (String, Json)| p.0@),
                    views(out@) == name_list(x.take(i as int)),
                decreases o@.len() - i,
            {
                proof {
                    lemma_take_more(x, i as int);
                }
                insert_name(&mut out, o[i].0.as_str());
                i += 1;
            }
            proof {
                lemma_take_all(x);
                text::name_list_is_sorted(x);
                assert forall|k: Seq<char>| #[trigger] views(out@).contains(k) <==> object_view(o@).contains_key(k) by {
                    crate::json::lemma_members(o@, k);
                    if x.contains(k) {
                        let j = choose|j: int| 0 <= j < x.len() && x[j] == k;
                        assert(o@[j].0@ == k);
                    }
                    if object_view(o@).contains_key(k) {
                        let j = choose|j: int| 0 <= j < o@.len() && (#[trigger] o@[j]).0@ == k;
                        assert(x[j] == k);
                    }
                }
            }
        },
        None => {
            assert(views(out@) =~= Seq::<Seq<char>>::empty());
        },
    }
    out
}

/// The work order of a lesson: what is to be made of the payload, without making any of it.
pub fn ai_request(up: &LessonUpload, received_at: u64) -> (r: Json)
    ensures
        exists|s: Seq<Seq<char>>| #[trigger]
            names_of(s, field(up.ai_payload@, "sources"@)) && r@ == order_view(*up, received_at, s),
{
    let names = source_names(&up.ai_payload);
    let ghost s = views(names@);
    let mut list: Vec<Json> = Vec::new();
    let mut i: usize = 0;
    while i < names.len()
        invariant
            i <= names@.len(),
            list@.len() == i,
            s == views(names@),
            forall|j: int| 0 <= j < i ==> (#[trigger] list@[j])@ == JsonView::Str(s[j]),
        decreases names@.len() - i,
    {
        list.push(Json::text(names[i].as_str()));
        assert(s[i as int] == names@[i as int]@);
        i += 1;
    }
    proof {
        crate::json::lemma_json_views(list@);
        assert(json_views(list@) =~= s.map_values(|s: Seq<char>| JsonView::Str(s)));
    }
    let mut file = "inbox/".to_owned();
    file.append(payload_name(up.lesson_id.as_str()).as_str());
    let mut o: Vec<(String, Json)> = Vec::new();
    put(&mut o, "proto", Json::uint(PROTO as u64));
    put(&mut o, "lesson_id", Json::text(up.lesson_id.as_str()));
    put(&mut o, "received_at_utc_ms", Json::uint(received_at));
    put(&mut o, "source", Json::text(up.source.as_str()));
    put(&mut o, "payload_ref", Json::text(file.as_str()));
    put(&mut o, "prev_lesson_id", copied(up.ai_payload.get("prev_lesson_id")));
    put(&mut o, "stats", copied(up.ai_payload.get("stats")));
    put(&mut o, "sources", Json::array(list));
    put(&mut o, "projections", make_projections());
    put(&mut o, "handoff", Json::text("服务端到此为止：真正的 ASR/LLM 调用是这一步之外的下游"));
    Json::object(o)
}

/// What an upload comes to.
#[derive(Debug, Clone)]
pub struct Ingested {
    /// The payload as it is stored.
    pub payload: String,
    /// Whether the payload is to be written.
    pub stored: bool,
    /// Whether it was there already.
    pub deduped: bool,
    /// The work order as it is stored.
    pub order: String,
}

/// Takes an upload, given the bytes that were stored for its lesson before.
pub fn ingest(up: &LessonUpload, stored: Option<&[u8]>, received_at: u64) -> (r: Result<Ingested, Refusal>)
    ensures
        match r {
            Ok(i) => {
                &&& upload_fault(*up) is None
                &&& i.payload@ == pretty(up.ai_payload@)
                &&& i.stored == is_new(pretty(up.ai_payload@), stored_view(stored))
                &&& i.deduped == !i.stored
                &&& exists|s: Seq<Seq<char>>| #[trigger]
                    names_of(s, field(up.ai_payload@, "sources"@)) && i.order@ == pretty(order_view(*up, received_at, s))
            },
            Err(e) => e.code == 400 && upload_fault(*up) == Some(e.msg@),
        },
{
    match check_upload(up) {
        Ok(_) => {},
        Err(e) => {
            return Err(e);
        },
    }
    let payload = up.ai_payload.to_pretty();
    let (write, had) = judge_payload(payload.as_str(), stored);
    let order = ai_request(up, received_at).to_pretty();
    Ok(Ingested { payload, stored: write, deduped: had, order })
}

/// The answer to an upload that was taken.
pub fn ack(up: &LessonUpload, i: &Ingested, received_at: u64, order_path: String) -> (r: IngestAck)
    ensures
        r.ok,
        r.proto == PROTO,
        r.lesson_id@ == up.lesson_id@,
        r.stored == i.stored,
        r.deduped == i.deduped,
        r.received_at_utc_ms == received_at,
        r.ai_request == order_path,
{
    IngestAck {
        ok: true,
        proto: PROTO,
        lesson_id: up.lesson_id.clone(),
        stored: i.stored,
        deduped: i.deduped,
        received_at_utc_ms: received_at,
        ai_request: order_path,
    }
}

// ---------------------------------------------------------------------------------------------
// What is there
// ---------------------------------------------------------------------------------------------

/// The state of the server.
pub fn health(cfg: &Config, received: usize) -> (r: Json)
    ensures
        r@ == JsonView::Obj(
            Map::<Seq<char>, JsonView>::empty().insert("server"@, JsonView::Str("classagent-server"@)).insert(
                "proto"@,
                number(PROTO as int),
            ).insert("listen"@, JsonView::Str(cfg.listen@)).insert("data_dir"@, JsonView::Str(cfg.data@)).insert(
                "auth"@,
                JsonView::Bool(cfg.token is Some),
            ).insert("received"@, number(received as int)),
        ),
{
    let mut o: Vec<(String, Json)> = Vec::new();
    put(&mut o, "server", Json::text("classagent-server"));
    put(&mut o, "proto", Json::uint(PROTO as u64));
    put(&mut o, "listen", Json::text(cfg.listen.as_str()));
    put(&mut o, "data_dir", Json::text(cfg.data.as_str()));
    put(&mut o, "auth", Json::Bool(cfg.token.is_some()));
    put(&mut o, "received", Json::uint(received as u64));
    Json::object(o)
}

/// A lesson in the list of lessons.
pub open spec fn payload_row(id: Seq<char>, bytes: u64) -> JsonView {
    JsonView::Obj(
        Map::<Seq<char>, JsonView>::empty().insert("lesson_id"@, JsonView::Str(id)).insert("bytes"@, number(bytes as int)),
    )
}

/// The lessons whose payloads are among the first `n` files of a directory, by name. Other files
/// do not count.
pub open spec fn received(files: Seq<(String, u64)>, n: int) -> Seq<(Seq<char>, JsonView)>
    decreases n,
{
    if n <= 0 {
        Seq::empty()
    } else {
        let rest = received(files, n - 1);
        match payload_stem(files[n - 1].0@) {
            Some(id) => rest.insert(slot(rest, id), (id, payload_row(id, files[n - 1].1))),
            None => rest,
        }
    }
}

/// The list of lessons: by name, those whose payloads are among the files of a directory. Each
/// file comes with its size.
pub fn lessons(files: &Vec<(String, u64)>) -> (r: Vec<Row>)
    ensures
        row_views(r@) == received(files@, files@.len() as int),
{
    let mut out: Vec<Row> = Vec::new();
    let mut i: usize = 0;
    assert(row_views(out@) =~= received(files@, 0));
    while i < files.len()
        invariant
            i <= files@.len(),
            row_views(out@) == received(files@, i as int),
        decreases files@.len() - i,
    {
        match payload_lesson(files[i].0.as_str()) {
            Some(id) => {
                let mut o: Vec<(String, Json)> = Vec::new();
                put(&mut o, "lesson_id", Json::text(id.as_str()));
                put(&mut o, "bytes", Json::uint(files[i].1));
                let json = Json::object(o);
                insert_row(&mut out, Row { file: id, json });
            },
            None => {},
        }
        i += 1;
    }
    out
}

/// The list of lessons comes by name, whatever order their files were found in.
pub proof fn lessons_come_by_name(files: Seq<(String, u64)>, n: int)
    ensures
        by_name(received(files, n)),
    decreases n,
{
    if n > 0 {
        lessons_come_by_name(files, n - 1);
        match payload_stem(files[n - 1].0@) {
            Some(id) => rows_stay_by_name(received(files, n - 1), id, payload_row(id, files[n - 1].1)),
            None => {},
        }
    }
}

/// The first header that carries a token decides, whatever its name is written like: with the token
/// asked for the request may write, with another or with none it may not.
pub proof fn tokens_decide(headers: Seq<(String, String)>, token: Seq<char>, i: int)
    requires
        0 <= i <= headers.len(),
        forall|j: int| 0 <= j < i ==> lowered((#[trigger] headers[j]).0@) != lowered("x-classagent-token"@),
        i < headers.len() ==> lowered(headers[i].0@) == lowered("x-classagent-token"@),
    ensures
        carries(headers, token) <==> i < headers.len() && headers[i].1@ == token,
    decreases headers.len(),
{
    if headers.len() > 0 && i > 0 {
        let t = headers.drop_first();
        assert(lowered(headers[0].0@) != lowered("x-classagent-token"@));
        assert forall|j: int| 0 <= j < i - 1 implies lowered((#[trigger] t[j]).0@) != lowered("x-classagent-token"@) by {
            assert(t[j] == headers[j + 1]);
        }
        if i < headers.len() {
            assert(t[i - 1] == headers[i]);
        }
        tokens_decide(t, token, i - 1);
    }
}

/// Nothing is taken without leave, and nothing is looked up by a name that is not safe.
pub proof fn uploads_need_leave(r: Route, verb: Verb, path: Seq<char>, authorized: bool)
    requires
        is_route(r, verb, path, authorized),
    ensures
        r is Ingest <==> verb == Verb::Post && path == "/api/ingest"@ && authorized,
        verb == Verb::Post && path == "/api/ingest"@ && !authorized ==> (r matches Route::Refuse { code, msg } && code == 401),
        r matches Route::Payload { id } ==> verb == Verb::Get && safe_name(id@),
        r matches Route::AiRequest { id } ==> verb == Verb::Get && safe_name(id@),
{
}

/// An upload is taken exactly where it speaks this protocol and names its lesson safely.
pub proof fn uploads_are_taken(up: LessonUpload)
    ensures
        upload_fault(up) is None <==> up.proto == PROTO && safe_name(up.lesson_id@),
        up.proto != PROTO ==> upload_fault(up) == Some(
            "协议版本不符：客户端报 v"@ + dec(up.proto as int) + "，服务端 v"@ + dec(PROTO as int),
        ),
{
}

/// A payload that differs from what is stored by as much as a byte is new, and so is the first one.
pub proof fn changes_are_stored(text: Seq<char>, other: Seq<char>)
    ensures
        is_new(text, None),
        is_new(text, Some(vstd::utf8::encode_utf8(other))) <==> vstd::utf8::encode_utf8(text) != vstd::utf8::encode_utf8(other),
        stored_after(text, Some(vstd::utf8::encode_utf8(other))) == Some(vstd::utf8::encode_utf8(text)),
{
}

/// The file of a lesson's payload names the lesson, and no two lessons share one.
pub proof fn payload_files_name_their_lessons(a: Seq<char>, b: Seq<char>)
    ensures
        payload_stem(payload_file(a)) == Some(a),
        payload_file(a) == payload_file(b) ==> a == b,
{
    let e = ".ai_payload.json"@;
    let f = payload_file(a);
    assert(f.subrange(f.len() - e.len(), f.len() as int) =~= e);
    assert(f.take(f.len() - e.len()) =~= a);
    if f == payload_file(b) {
        assert(payload_file(b).take(f.len() - e.len()) =~= b);
    }
}

proof fn lemma_row_kept(s: Seq<(Seq<char>, JsonView)>, k: int, x: (Seq<char>, JsonView), y: (Seq<char>, JsonView))
    requires
        0 <= k <= s.len(),
    ensures
        s.insert(k, x).contains(x),
        s.contains(y) ==> s.insert(k, x).contains(y),
{
    assert(s.insert(k, x)[k] == x);
    if s.contains(y) {
        let n = choose|n: int| 0 <= n < s.len() && s[n] == y;
        if n < k {
            assert(s.insert(k, x)[n] == y);
        } else {
            assert(s.insert(k, x)[n + 1] == y);
        }
    }
}

/// Every lesson whose payload was received is listed, with the size of its file.
pub proof fn received_lessons_are_listed(files: Seq<(String, u64)>, n: int, i: int, id: Seq<char>)
    requires
        0 <= i < n <= files.len(),
        files[i].0@ == payload_file(id),
    ensures
        received(files, n).contains((id, payload_row(id, files[i].1))),
    decreases n,
{
    let x = (id, payload_row(id, files[i].1));
    let rest = received(files, n - 1);
    payload_files_name_their_lessons(id, id);
    lessons_come_by_name(files, n - 1);
    if i < n - 1 {
        received_lessons_are_listed(files, n - 1, i, id);
    }
    match payload_stem(files[n - 1].0@) {
        Some(last) => {
            rows_stay_by_name(rest, last, payload_row(last, files[n - 1].1));
            lemma_row_kept(rest, slot(rest, last), (last, payload_row(last, files[n - 1].1)), x);
        },
        None => {},
    }
}

/// A work order names its lesson and the file of its payload, tells when the upload came in, and hands on
/// the lesson before, the figures and the names of the sources as the payload has them.
pub proof fn orders_tell_of_their_lesson(up: LessonUpload, received_at: u64, sources: Seq<Seq<char>>)
    ensures
        ({
            let o = order_view(up, received_at, sources);
            &&& field(o, "lesson_id"@) == Some(JsonView::Str(up.lesson_id@))
            &&& field(o, "received_at_utc_ms"@) == Some(JsonView::Number(NumberView::Pos(received_at)))
            &&& field(o, "source"@) == Some(JsonView::Str(up.source@))
            &&& field(o, "payload_ref"@) == Some(JsonView::Str("inbox/"@ + payload_file(up.lesson_id@)))
            &&& field(up.ai_payload@, "prev_lesson_id"@) is Some ==> field(o, "prev_lesson_id"@) == field(
                up.ai_payload@,
                "prev_lesson_id"@,
            )
            &&& field(up.ai_payload@, "stats"@) is Some ==> field(o, "stats"@) == field(up.ai_payload@, "stats"@)
            &&& field(o, "sources"@) == Some(JsonView::Arr(sources.map_values(|s: Seq<char>| JsonView::Str(s))))
        }),
{
    reveal_strlit("proto");
    reveal_strlit("lesson_id");
    reveal_strlit("received_at_utc_ms");
    reveal_strlit("source");
    reveal_strlit("payload_ref");
    reveal_strlit("prev_lesson_id");
    reveal_strlit("stats");
    reveal_strlit("sources");
    reveal_strlit("projections");
    reveal_strlit("handoff");
    assert("proto"@.len() == 5);
    assert("lesson_id"@.len() == 9);
    assert("received_at_utc_ms"@.len() == 18);
    assert("source"@.len() == 6);
    assert("payload_ref"@.len() == 11);
    assert("prev_lesson_id"@.len() == 14);
    assert("stats"@.len() == 5);
    assert("sources"@.len() == 7);
    assert("projections"@.len() == 11);
    assert("handoff"@.len() == 7);
    assert("proto"@[0] != "stats"@[0]);
    assert("proto"@ != "stats"@);
    assert("payload_ref"@[1] != "projections"@[1]);
    assert("payload_ref"@ != "projections"@);
    assert("sources"@[0] != "handoff"@[0]);
    assert("sources"@ != "handoff"@);
}

proof fn lemma_kept(c: ConfigView, args: Seq<Seq<char>>, i: int)
    requires
        0 <= i,
        forall|q: int|
            i <= q < args.len() ==> #[trigger] args[q] != "--listen"@ && args[q] != "--data"@ && args[q] != "--token"@ && args[q]
                != "--help"@ && args[q] != "-h"@,
    ensures
        ({
            let r = configured(c, args, i);
            r.listen == c.listen && r.data == c.data && r.token == c.token && r.help == c.help
        }),
    decreases args.len() - i,
{
    if i < args.len() {
        assert(args[i] != "--listen"@);
        lemma_kept(ConfigView { ignored: c.ignored.push(args[i]), ..c }, args, i + 1);
    }
}

/// An option of the server has the value that stands behind it, and leaves the others as they are; where
/// the usage is asked for, that is all that is done.
pub proof fn options_set_what_they_name(c: ConfigView, args: Seq<Seq<char>>, i: int)
    requires
        0 <= i,
        i + 1 < args.len(),
        forall|q: int|
            i + 2 <= q < args.len() ==> #[trigger] args[q] != "--listen"@ && args[q] != "--data"@ && args[q] != "--token"@
                && args[q] != "--help"@ && args[q] != "-h"@,
    ensures
        ({
            let r = configured(c, args, i);
            let v = args[i + 1];
            &&& args[i] == "--listen"@ ==> r.listen == v && r.data == c.data && r.token == c.token && r.help == c.help
            &&& args[i] == "--data"@ ==> r.data == v && r.listen == c.listen && r.token == c.token && r.help == c.help
            &&& args[i] == "--token"@ ==> r.token == Some(v) && r.listen == c.listen && r.data == c.data && r.help == c.help
            &&& args[i] == "--help"@ || args[i] == "-h"@ ==> r == (ConfigView { help: true, ..c })
        }),
{
    reveal_strlit("--listen");
    reveal_strlit("--data");
    reveal_strlit("--token");
    reveal_strlit("--help");
    reveal_strlit("-h");
    assert("--listen"@.len() == 8 && "--data"@.len() == 6 && "--token"@.len() == 7 && "--help"@.len() == 6 && "-h"@.len() == 2);
    assert("--data"@[2] != "--help"@[2]);
    assert("--data"@ != "--help"@);
    let v = args[i + 1];
    lemma_kept(ConfigView { listen: v, ..c }, args, i + 2);
    lemma_kept(ConfigView { data: v, ..c }, args, i + 2);
    lemma_kept(ConfigView { token: Some(v), ..c }, args, i + 2);
}

/// Lessons are found by their names: the path of a lesson asks for its payload, with the word for it
/// behind it or without, and with the word for the work order for that.
pub proof fn lessons_are_found_by_name(r: Route, id: Seq<char>, rest: Seq<char>)
    requires
        safe_name(id),
        rest.len() > 0 ==> rest[0] == '/',
        is_read(r, "/api/lesson/"@ + (id + rest)),
    ensures
        rest.len() == 0 || rest == seq!['/'] + "payload"@ ==> (r matches Route::Payload { id: i } && i@ == id),
        rest == seq!['/'] + "ai-request"@ ==> (r matches Route::AiRequest { id: i } && i@ == id),
{
    let p = "/api/lesson/"@;
    let path = p + (id + rest);
    reveal_strlit("/api/lesson/");
    reveal_strlit("/api/lessons");
    reveal_strlit("/health");
    reveal_strlit("/");
    reveal_strlit("payload");
    reveal_strlit("ai-request");
    assert(p.len() == 12 && "/api/lessons"@.len() == 12 && "/health"@.len() == 7 && "/"@.len() == 1);
    assert(path.len() > 12);
    assert(path.subrange(0, p.len() as int) =~= p);
    assert(path.skip(p.len() as int) =~= id + rest);
    crate::schema::safe_name_stays_inside(id);
    if id.contains('/') {
        let i = choose|i: int| 0 <= i < id.len() && id[i] == '/';
        assert(id[i] != '/');
    }
    text::lemma_cut_behind(id, rest, '/');
    assert("payload"@.len() == 7 && "ai-request"@.len() == 10);
    assert((seq!['/'] + "payload"@).drop_first() =~= "payload"@);
    assert((seq!['/'] + "ai-request"@).drop_first() =~= "ai-request"@);
}

} // verus!
