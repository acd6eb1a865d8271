//! The lists of the dashboard and of the console: lessons, adapters, and the state of the service.

use vstd::prelude::*;
use crate::json::field;
use crate::json::parsed;
use crate::json::put;
use crate::json::Json;
use crate::json::JsonView;
use crate::readable;
use crate::readable::size_text;
use crate::schema::LessonMeta;
use crate::schema::PROTO;
use crate::screen::number;
use crate::serve::Config;
use crate::supervisor::is_declaration;
use crate::text;
use crate::text::begins;
use crate::text::dec;
use crate::text::ends;
use crate::text::opt_view;
use crate::text::pad_left;
use crate::text::text_le;
use crate::text::views;
use crate::track::less_by;
use crate::track::or_else;

verus! {

/// Whether an address is seen by this machine alone.
pub fn is_local(listen: &str) -> (r: bool)
    ensures
        r == (begins(listen@, "127."@) || begins(listen@, "localhost"@)),
{
    text::starts_with(listen, "127.") || text::starts_with(listen, "localhost")
}

/// The state of the service.
pub fn health_row(cfg: &Config, lessons: usize) -> (r: Json)
    ensures
        r@ == JsonView::Obj(
            Map::<Seq<char>, JsonView>::empty().insert("server"@, JsonView::Str("classagent-client serve"@)).insert(
                "proto"@,
                number(PROTO as int),
            ).insert("listen"@, JsonView::Str(cfg.listen@)).insert("data_dir"@, JsonView::Str(cfg.data@)).insert(
                "adapters_dir"@,
                JsonView::Str(cfg.adapters@),
            ).insert("allow_write"@, JsonView::Bool(cfg.allow_write)).insert("lessons"@, number(lessons as int)),
        ),
{
    let mut o: Vec<(String, Json)> = Vec::new();
    put(&mut o, "server", Json::text("classagent-client serve"));
    put(&mut o, "proto", Json::uint(PROTO as u64));
    put(&mut o, "listen", Json::text(cfg.listen.as_str()));
    put(&mut o, "data_dir", Json::text(cfg.data.as_str()));
    put(&mut o, "adapters_dir", Json::text(cfg.adapters.as_str()));
    put(&mut o, "allow_write", Json::Bool(cfg.allow_write));
    put(&mut o, "lessons", Json::uint(lessons as u64));
    Json::object(o)
}

/// The document of a text that may be missing.
pub open spec fn text_or_null(s: Option<Seq<char>>) -> JsonView {
    match s {
        Some(t) => JsonView::Str(t),
        None => JsonView::Null,
    }
}

fn null_or_text(s: &Option<String>) -> (r: Json)
    ensures
        r@ == text_or_null(opt_view(*s)),
{
    match s {
        Some(t) => Json::text(t.as_str()),
        None => Json::Null,
    }
}

/// How long a lesson took, on the clock of the core; 0 while it goes on.
pub open spec fn wall_ms(m: LessonMeta) -> int {
    match m.ended_core_mono_us {
        Some(e) => less_by(e as int, m.started_core_mono_us as int) / 1000,
        None => 0,
    }
}

/// A lesson in the list of lessons. `courseware` is its courseware as a document.
pub open spec fn lesson_view(id: Seq<char>, m: LessonMeta, events_bytes: u64, courseware: JsonView) -> JsonView {
    JsonView::Obj(
        Map::<Seq<char>, JsonView>::empty().insert("lesson_id"@, JsonView::Str(id)).insert(
            "subject"@,
            text_or_null(opt_view(m.info.subject)),
        ).insert("class"@, text_or_null(opt_view(m.info.class))).insert("teacher"@, text_or_null(opt_view(m.info.teacher))).insert(
            "prev_lesson_id"@,
            text_or_null(opt_view(m.info.prev_lesson_id)),
        ).insert("started_at_utc_ms"@, number(m.info.started_at_utc_ms as int)).insert(
            "stop_reason"@,
            text_or_null(opt_view(m.stop_reason)),
        ).insert("wall_ms"@, number(wall_ms(m))).insert("events_bytes"@, number(events_bytes as int)).insert(
            "courseware"@,
            courseware,
        ),
    )
}

/// A lesson in the list of lessons.
pub fn lesson_row(id: &str, m: &LessonMeta, events_bytes: u64, courseware: Json) -> (r: Json)
    ensures
        r@ == lesson_view(id@, *m, events_bytes, courseware@),
{
    let wall: u64 = match m.ended_core_mono_us {
        Some(e) => if e > m.started_core_mono_us {
            (e - m.started_core_mono_us) / 1000
        } else {
            0
        },
        None => 0,
    };
    let mut o: Vec<(String, Json)> = Vec::new();
    put(&mut o, "lesson_id", Json::text(id));
    put(&mut o, "subject", null_or_text(&m.info.subject));
    put(&mut o, "class", null_or_text(&m.info.class));
    put(&mut o, "teacher", null_or_text(&m.info.teacher));
    put(&mut o, "prev_lesson_id", null_or_text(&m.info.prev_lesson_id));
    put(&mut o, "started_at_utc_ms", Json::uint(m.info.started_at_utc_ms));
    put(&mut o, "stop_reason", null_or_text(&m.stop_reason));
    put(&mut o, "wall_ms", Json::uint(wall));
    put(&mut o, "events_bytes", Json::uint(events_bytes));
    put(&mut o, "courseware", courseware);
    Json::object(o)
}

/// A member of a declaration, or what stands in for it.
pub open spec fn member_or(v: JsonView, k: Seq<char>, d: JsonView) -> JsonView {
    match field(v, k) {
        Some(x) => x,
        None => d,
    }
}

fn get_or(v: &Json, k: &str, d: Json) -> (r: Json)
    ensures
        r@ == member_or(v@, k@, d@),
{
    match v.get(k) {
        Some(x) => x.copy(),
        None => d,
    }
}

/// An adapter whose declaration cannot be used, in the list of adapters.
pub open spec fn broken_view(file: Seq<char>, why: Seq<char>) -> JsonView {
    JsonView::Obj(
        Map::<Seq<char>, JsonView>::empty().insert("file"@, JsonView::Str(file)).insert("error"@, JsonView::Str(why)),
    )
}

fn broken_row(file: &str, lead: &str, e: &str) -> (r: Json)
    ensures
        r@ == broken_view(file@, lead@ + e@),
{
    let mut s = lead.to_owned();
    s.append(e);
    let mut o: Vec<(String, Json)> = Vec::new();
    put(&mut o, "file", Json::text(file));
    put(&mut o, "error", Json::text(s.as_str()));
    Json::object(o)
}

/// What was read of a declaration: its text, or why it could not be read.
pub open spec fn read_view(t: Result<String, String>) -> Result<Seq<char>, Seq<char>> {
    match t {
        Ok(s) => Ok(s@),
        Err(e) => Err(e@),
    }
}

/// An adapter in the list of adapters.
pub open spec fn adapter_view(file: Seq<char>, t: Result<Seq<char>, Seq<char>>) -> JsonView {
    match t {
        Err(e) => broken_view(file, "读不到："@ + e),
        Ok(s) => match parsed(s) {
            Err(e) => broken_view(file, "声明解析失败："@ + e),
            Ok(v) => JsonView::Obj(
                Map::<Seq<char>, JsonView>::empty().insert("file"@, JsonView::Str(file)).insert(
                    "id"@,
                    member_or(v, "id"@, JsonView::Null),
                ).insert("enabled"@, member_or(v, "enabled"@, JsonView::Bool(true))).insert(
                    "platforms"@,
                    member_or(v, "platforms"@, JsonView::Arr(Seq::empty())),
                ).insert("argv"@, member_or(v, "argv"@, JsonView::Arr(Seq::empty()))).insert(
                    "params"@,
                    member_or(v, "params"@, JsonView::Obj(Map::<Seq<char>, JsonView>::empty())),
                ),
            ),
        },
    }
}

/// An adapter in the list of adapters.
pub fn adapter_row(file: &str, t: &Result<String, String>) -> (r: Json)
    ensures
        r@ == adapter_view(file@, read_view(*t)),
{
    let s = match t {
        Ok(s) => s,
        Err(e) => {
            return broken_row(file, "读不到：", e.as_str());
        },
    };
    match Json::parse(s.as_str()) {
        Err(e) => broken_row(file, "声明解析失败：", e.as_str()),
        Ok(v) => {
            let none: Vec<Json> = Vec::new();
            let no_more: Vec<Json> = Vec::new();
            let nothing: Vec<(String, Json)> = Vec::new();
            let mut o: Vec<(String, Json)> = Vec::new();
            put(&mut o, "file", Json::text(file));
            put(&mut o, "id", get_or(&v, "id", Json::Null));
            put(&mut o, "enabled", get_or(&v, "enabled", Json::Bool(true)));
            put(&mut o, "platforms", get_or(&v, "platforms", Json::array(none)));
            put(&mut o, "argv", get_or(&v, "argv", Json::array(no_more)));
            put(&mut o, "params", get_or(&v, "params", Json::object(nothing)));
            Json::object(o)
        },
    }
}

/// A row of a list, with the name that it comes by.
#[derive(Debug, Clone)]
pub struct Row {
    pub file: String,
    pub json: Json,
}

/// What rows hold.
pub open spec fn row_views(v: Seq<Row>) -> Seq<(Seq<char>, JsonView)> {
    v.map_values(|r: Row| (r.file@, r.json@))
}

/// Where a row goes among others that come by name: behind those that do not come later.
pub open spec fn slot(s: Seq<(Seq<char>, JsonView)>, file: Seq<char>) -> int
    decreases s.len(),
{
    if s.len() == 0 {
        0
    } else if text_le(s.last().0, file) {
        s.len() as int
    } else {
        slot(s.drop_last(), file)
    }
}

/// The adapters among the first `n` files of a directory, by name. Other files do not count.
pub open spec fn listing(files: Seq<(String, Result<String, String>)>, n: int) -> Seq<(Seq<char>, JsonView)>
    decreases n,
{
    if n <= 0 {
        Seq::empty()
    } else {
        let rest = listing(files, n - 1);
        let file = files[n - 1].0@;
        if ends(file, ".adapter.json"@) {
            rest.insert(slot(rest, file), (file, adapter_view(file, read_view(files[n - 1].1))))
        } else {
            rest
        }
    }
}

/// Puts one more row among others that come by name.
pub fn insert_row(v: &mut Vec<Row>, x: Row)
    ensures
        row_views(final(v)@) == row_views(old(v)@).insert(slot(row_views(old(v)@), x.file@), (x.file@, x.json@)),
{
    let ghost s = row_views(v@);
    let ghost before = v@;
    let mut k: usize = v.len();
    assert(s.take(s.len() as int) =~= s);
    while k > 0 && !text::not_after(v[k - 1].file.as_str(), x.file.as_str())
        invariant
            k <= v@.len(),
            v@ == before,
            s == row_views(v@),
            slot(s, x.file@) == slot(s.take(k as int), x.file@),
        decreases k,
    {
        proof {
            assert(s.take(k as int).drop_last() =~= s.take(k - 1));
            assert(s.take(k as int).last() == s[k - 1]);
        }
        k -= 1;
    }
    proof {
        if k > 0 {
            assert(s.take(k as int).last() == s[k - 1]);
        }
        assert(slot(s, x.file@) == k);
    }
    v.insert(k, x);
    assert(row_views(v@) =~= s.insert(k as int, (x.file@, x.json@)));
}

/// The list of adapters: those of a directory, by name.
pub fn adapters(files: &Vec<(String, Result<String, String>)>) -> (r: Vec<Row>)
    ensures
        row_views(r@) == listing(files@, files@.len() as int),
{
    let mut out: Vec<Row> = Vec::new();
    let mut i: usize = 0;
    assert(row_views(out@) =~= listing(files@, 0));
    while i < files.len()
        invariant
            i <= files@.len(),
            row_views(out@) == listing(files@, i as int),
        decreases files@.len() - i,
    {
        let name = files[i].0.as_str();
        if is_declaration(name) {
            let json = adapter_row(name, &files[i].1);
            insert_row(&mut out, Row { file: name.to_owned(), json });
        }
        i += 1;
    }
    out
}

/// Whether rows come by name.
pub open spec fn by_name(s: Seq<(Seq<char>, JsonView)>) -> bool {
    forall|i: int, j: int| 0 <= i <= j < s.len() ==> text_le(#[trigger] s[i].0, #[trigger] s[j].0)
}

proof fn lemma_slot(s: Seq<(Seq<char>, JsonView)>, x: Seq<char>)
    requires
        by_name(s),
    ensures
        0 <= slot(s, x) <= s.len(),
        forall|i: int| 0 <= i < slot(s, x) ==> text_le(#[trigger] s[i].0, x),
        forall|i: int| slot(s, x) <= i < s.len() ==> text_le(x, #[trigger] s[i].0),
    decreases s.len(),
{
    if s.len() > 0 {
        let l = s.last().0;
        if text_le(l, x) {
            assert forall|i: int| 0 <= i < s.len() implies text_le(#[trigger] s[i].0, x) by {
                assert(text_le(s[i].0, s[s.len() - 1].0));
                text::text_le_transitive(s[i].0, l, x);
            }
        } else {
            assert(by_name(s.drop_last())) by {
                assert forall|i: int, j: int| 0 <= i <= j < s.drop_last().len() implies text_le(
                    #[trigger] s.drop_last()[i].0,
                    #[trigger] s.drop_last()[j].0,
                ) by {
                    assert(text_le(s[i].0, s[j].0));
                }
            }
            lemma_slot(s.drop_last(), x);
            text::text_le_total(l, x);
            assert forall|i: int| 0 <= i < slot(s, x) implies text_le(#[trigger] s[i].0, x) by {
                assert(s.drop_last()[i] == s[i]);
            }
            assert forall|i: int| slot(s, x) <= i < s.len() implies text_le(x, #[trigger] s[i].0) by {
                if i < s.len() - 1 {
                    assert(s.drop_last()[i] == s[i]);
                }
            }
        }
    }
}

/// Rows that come by name still do with one more of them put in its place.
pub proof fn rows_stay_by_name(s: Seq<(Seq<char>, JsonView)>, x: Seq<char>, json: JsonView)
    requires
        by_name(s),
    ensures
        0 <= slot(s, x) <= s.len(),
        by_name(s.insert(slot(s, x), (x, json))),
{
    lemma_slot(s, x);
    let k = slot(s, x);
    let t = s.insert(k, (x, json));
    text::text_le_reflexive(x);
    assert forall|i: int, j: int| 0 <= i <= j < t.len() implies text_le(#[trigger] t[i].0, #[trigger] t[j].0) by {
        if i < k && j < k {
            assert(text_le(s[i].0, s[j].0));
        } else if i < k && j > k {
            assert(text_le(s[i].0, s[j - 1].0));
        } else if i > k {
            assert(text_le(s[i - 1].0, s[j - 1].0));
        } else if i < k {
            assert(t[i] == s[i]);
        } else if j > k {
            assert(t[j] == s[j - 1]);
        }
    }
}

proof fn lemma_listing(files: Seq<(String, Result<String, String>)>, n: int)
    ensures
        by_name(listing(files, n)),
    decreases n,
{
    if n > 0 {
        lemma_listing(files, n - 1);
        let x = files[n - 1].0@;
        rows_stay_by_name(listing(files, n - 1), x, adapter_view(x, read_view(files[n - 1].1)));
    }
}

/// The list of adapters comes by name, whatever order their files were found in.
pub proof fn listings_come_by_name(files: Seq<(String, Result<String, String>)>)
    ensures
        by_name(listing(files, files.len() as int)),
{
    lemma_listing(files, files.len() as int);
}

// ---------------------------------------------------------------------------------------------
// The console
// ---------------------------------------------------------------------------------------------

/// A lesson on the console, in two lines.
pub fn lesson_lines(id: &str, m: &LessonMeta, size: u64) -> (r: (String, String))
    requires
        m.ended_core_mono_us matches Some(e) ==> e >= m.started_core_mono_us,
    ensures
        r.0@ == id@ + "  "@ + or_else(opt_view(m.info.subject), "-"@) + " "@ + or_else(opt_view(m.info.class), "-"@)
            + "  "@ + pad_left(size_text(size as int), 6, ' ') + "  停止="@ + or_else(opt_view(m.stop_reason), "-"@),
        r.1@ == "   时长="@ + (match m.ended_core_mono_us {
            Some(e) => dec((e - m.started_core_mono_us) / 1_000_000) + "s"@,
            None => "进行中"@,
        }) + " 课件="@ + dec(m.info.courseware@.len() as int) + " blob="@ + m.info.blob_dir@,
{
    let mut a = id.to_owned();
    a.append("  ");
    a.append(or_dash(&m.info.subject));
    a.append(" ");
    a.append(or_dash(&m.info.class));
    a.append("  ");
    text::push_pad_left(&mut a, readable::human_bytes(size).as_str(), 6, ' ');
    a.append("  停止=");
    a.append(or_dash(&m.stop_reason));
    let dur = match m.ended_core_mono_us {
        Some(e) => {
            let mut d = text::dec_text((e - m.started_core_mono_us) / 1_000_000);
            d.append("s");
            d
        },
        None => "进行中".to_owned(),
    };
    let mut b = "   时长=".to_owned();
    b.append(dur.as_str());
    b.append(" 课件=");
    text::push_dec(&mut b, m.info.courseware.len() as u64);
    b.append(" blob=");
    b.append(m.info.blob_dir.as_str());
    (a, b)
}

fn or_dash(s: &Option<String>) -> (r: &str)
    ensures
        r@ == or_else(opt_view(*s), "-"@),
{
    match s {
        Some(t) => t.as_str(),
        None => "-",
    }
}

/// A lesson on the console of which only the events are left.
pub fn bare_line(id: &str, size: u64) -> (r: String)
    ensures
        r@ == id@ + " 缺 meta.json（事件 "@ + size_text(size as int) + "）"@,
{
    let mut s = id.to_owned();
    s.append(" 缺 meta.json（事件 ");
    s.append(readable::human_bytes(size).as_str());
    s.append("）");
    s
}

/// How many bytes a page has to have more than; a file with fewer is taken for a broken one.
pub const PAGE_BYTES: usize = 500;

/// The page that is shown: the one that was found, where it is one, else the one built in.
pub fn page(found: Option<Vec<u8>>, own: Vec<u8>) -> (r: Vec<u8>)
    ensures
        r == (if found matches Some(p) && p@.len() > PAGE_BYTES {
            found->0
        } else {
            own
        }),
{
    match found {
        Some(p) => if p.len() > PAGE_BYTES {
            p
        } else {
            own
        },
        None => own,
    }
}

/// The figures of a lesson, as they are told: those of the lesson and of its sources, what there is
/// to warn of, and how many lines its track has.
pub fn stats_row(id: &str, stats: Json, sources: Json, warnings: &Vec<String>, track_len: usize) -> (r: Json)
    ensures
        r@ == JsonView::Obj(
            Map::<Seq<char>, JsonView>::empty().insert("lesson_id"@, JsonView::Str(id@)).insert("stats"@, stats@).insert(
                "sources"@,
                sources@,
            ).insert("warnings"@, JsonView::Arr(views(warnings@).map_values(|s: Seq<char>| JsonView::Str(s)))).insert(
                "track_len"@,
                number(track_len as int),
            ),
        ),
{
    let mut o: Vec<(String, Json)> = Vec::new();
    put(&mut o, "lesson_id", Json::text(id));
    put(&mut o, "stats", stats);
    put(&mut o, "sources", sources);
    put(&mut o, "warnings", text_list(warnings));
    put(&mut o, "track_len", Json::uint(track_len as u64));
    Json::object(o)
}

fn text_list(v: &Vec<String>) -> (r: Json)
    ensures
        r@ == JsonView::Arr(views(v@).map_values(|s: Seq<char>| JsonView::Str(s))),
{
    let mut out: Vec<Json> = Vec::new();
    let mut i: usize = 0;
    while i < v.len()
        invariant
            i <= v@.len(),
            out@.len() == i,
            forall|k: int| 0 <= k < i ==> (#[trigger] out@[k])@ == JsonView::Str(v@[k]@),
        decreases v@.len() - i,
    {
        out.push(Json::text(v[i].as_str()));
        i += 1;
    }
    proof {
        crate::json::lemma_json_views(out@);
        assert(crate::json::json_views(out@) =~= views(v@).map_values(|s: Seq<char>| JsonView::Str(s)));
    }
    Json::array(out)
}

/// Every declaration among the files of a directory is listed.
pub proof fn declarations_are_listed(files: Seq<(String, Result<String, String>)>, n: int, i: int)
    requires
        0 <= i < n <= files.len(),
        ends(files[i].0@, ".adapter.json"@),
    ensures
        listing(files, n).contains((files[i].0@, adapter_view(files[i].0@, read_view(files[i].1)))),
    decreases n,
{
    let x = files[n - 1].0@;
    let row = (x, adapter_view(x, read_view(files[n - 1].1)));
    let rest = listing(files, n - 1);
    lemma_listing(files, n - 1);
    rows_stay_by_name(rest, x, row.1);
    let k = slot(rest, x);
    let t = rest.insert(k, row);
    if i < n - 1 {
        declarations_are_listed(files, n - 1, i);
        let y = (files[i].0@, adapter_view(files[i].0@, read_view(files[i].1)));
        let m = choose|m: int| 0 <= m < rest.len() && rest[m] == y;
        if m < k {
            assert(t[m] == y);
        } else {
            assert(t[m + 1] == y);
        }
    } else {
        assert(t[k] == row);
    }
}

proof fn lemma_only_declarations(files: Seq<(String, Result<String, String>)>, n: int, j: int)
    requires
        0 <= j < listing(files, n).len(),
        n <= files.len(),
    ensures
        ends(listing(files, n)[j].0, ".adapter.json"@),
    decreases n,
{
    if n > 0 {
        let x = files[n - 1].0@;
        let row = (x, adapter_view(x, read_view(files[n - 1].1)));
        let rest = listing(files, n - 1);
        lemma_listing(files, n - 1);
        rows_stay_by_name(rest, x, row.1);
        let k = slot(rest, x);
        if ends(x, ".adapter.json"@) {
            if j < k {
                lemma_only_declarations(files, n - 1, j);
            } else if j > k {
                lemma_only_declarations(files, n - 1, j - 1);
            }
        } else {
            lemma_only_declarations(files, n - 1, j);
        }
    }
}

/// Nothing but declarations is listed.
pub proof fn only_declarations_are_listed(files: Seq<(String, Result<String, String>)>, j: int)
    requires
        0 <= j < listing(files, files.len() as int).len(),
    ensures
        ends(listing(files, files.len() as int)[j].0, ".adapter.json"@),
{
    lemma_only_declarations(files, files.len() as int, j);
}

/// A lesson took as long as the clock of the core ran from its start to its end, in whole milliseconds.
pub proof fn lessons_take_their_time(m: LessonMeta, end_us: u64)
    requires
        m.ended_core_mono_us == Some(end_us),
        m.started_core_mono_us <= end_us,
    ensures
        wall_ms(m) * 1000 <= end_us - m.started_core_mono_us < wall_ms(m) * 1000 + 1000,
{
}

/// A lesson in the list says what it is: its name, the one before it, how long it took, how large it is,
/// and why it ended, where it did.
pub proof fn lessons_are_told_as_they_are(id: Seq<char>, m: LessonMeta, events_bytes: u64, courseware: JsonView)
    requires
        m.ended_core_mono_us matches Some(e) ==> m.started_core_mono_us <= e,
    ensures
        ({
            let r = lesson_view(id, m, events_bytes, courseware);
            &&& field(r, "lesson_id"@) == Some(JsonView::Str(id))
            &&& field(r, "events_bytes"@) == Some(number(events_bytes as int))
            &&& field(r, "started_at_utc_ms"@) == Some(number(m.info.started_at_utc_ms as int))
            &&& field(r, "courseware"@) == Some(courseware)
            &&& m.info.prev_lesson_id matches Some(p) ==> field(r, "prev_lesson_id"@) == Some(JsonView::Str(p@))
            &&& m.info.prev_lesson_id is None ==> field(r, "prev_lesson_id"@) == Some(JsonView::Null)
            &&& m.info.subject matches Some(s) ==> field(r, "subject"@) == Some(JsonView::Str(s@))
            &&& m.info.class matches Some(s) ==> field(r, "class"@) == Some(JsonView::Str(s@))
            &&& m.info.teacher matches Some(s) ==> field(r, "teacher"@) == Some(JsonView::Str(s@))
            &&& m.stop_reason matches Some(s) ==> field(r, "stop_reason"@) == Some(JsonView::Str(s@))
            &&& m.ended_core_mono_us matches Some(e) ==> field(r, "wall_ms"@) == Some(
                number((e - m.started_core_mono_us) / 1000),
            )
            &&& m.ended_core_mono_us is None ==> field(r, "wall_ms"@) == Some(number(0))
        }),
{
    reveal_strlit("lesson_id");
    reveal_strlit("subject");
    reveal_strlit("class");
    reveal_strlit("teacher");
    reveal_strlit("prev_lesson_id");
    reveal_strlit("started_at_utc_ms");
    reveal_strlit("stop_reason");
    reveal_strlit("wall_ms");
    reveal_strlit("events_bytes");
    reveal_strlit("courseware");
    assert("lesson_id"@.len() == 9);
    assert("subject"@.len() == 7);
    assert("class"@.len() == 5);
    assert("teacher"@.len() == 7);
    assert("prev_lesson_id"@.len() == 14);
    assert("started_at_utc_ms"@.len() == 17);
    assert("stop_reason"@.len() == 11);
    assert("wall_ms"@.len() == 7);
    assert("events_bytes"@.len() == 12);
    assert("courseware"@.len() == 10);
    assert("subject"@[0] != "teacher"@[0]);
    assert("subject"@ != "teacher"@);
    assert("subject"@[0] != "wall_ms"@[0]);
    assert("subject"@ != "wall_ms"@);
    assert("teacher"@[0] != "wall_ms"@[0]);
    assert("teacher"@ != "wall_ms"@);
}

/// An adapter in the list says what its declaration says; one that says nothing of its switch is on, and
/// one that cannot be used says why.
pub proof fn adapters_are_told_as_declared(file: Seq<char>, s: Seq<char>, v: JsonView)
    requires
        parsed(s) == Ok::<JsonView, Seq<char>>(v),
    ensures
        ({
            let r = adapter_view(file, Ok(s));
            &&& field(r, "file"@) == Some(JsonView::Str(file))
            &&& field(v, "id"@) is Some ==> field(r, "id"@) == field(v, "id"@)
            &&& field(v, "enabled"@) is Some ==> field(r, "enabled"@) == field(v, "enabled"@)
            &&& field(v, "enabled"@) is None ==> field(r, "enabled"@) == Some(JsonView::Bool(true))
            &&& field(v, "platforms"@) is Some ==> field(r, "platforms"@) == field(v, "platforms"@)
            &&& field(v, "argv"@) is Some ==> field(r, "argv"@) == field(v, "argv"@)
            &&& field(v, "params"@) is Some ==> field(r, "params"@) == field(v, "params"@)
        }),
{
    reveal_strlit("file");
    reveal_strlit("id");
    reveal_strlit("enabled");
    reveal_strlit("platforms");
    reveal_strlit("argv");
    reveal_strlit("params");
    assert("file"@.len() == 4);
    assert("id"@.len() == 2);
    assert("enabled"@.len() == 7);
    assert("platforms"@.len() == 9);
    assert("argv"@.len() == 4);
    assert("params"@.len() == 6);
    assert("file"@[0] != "argv"@[0]);
    assert("file"@ != "argv"@);
}

} // verus!
