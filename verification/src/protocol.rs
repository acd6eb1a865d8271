//! One JSON document to a line.

use vstd::prelude::*;
use crate::json::compact;
use crate::json::parsed;
use crate::json::Json;
use crate::json::JsonView;
use crate::json::whole;
use crate::json::DEPTH;
use crate::text;
use crate::text::chomped;
use crate::text::trimmed;

verus! {

/// The first `max` characters of `s`, with a sign of the cut where there were more.
pub open spec fn shortened(s: Seq<char>, max: int) -> Seq<char> {
    if s.len() <= max {
        s
    } else {
        s.take(max).push('…')
    }
}

/// The first `max_chars` characters of `s`, with a sign of the cut where there were more.
pub fn shorten(s: &str, max_chars: usize) -> (r: String)
    ensures
        r@ == shortened(s@, max_chars as int),
{
    let v = text::chars_of(s);
    if v.len() <= max_chars {
        s.to_owned()
    } else {
        let mut out = text::text_of(v.as_slice(), 0, max_chars);
        assert(out@ =~= s@.take(max_chars as int));
        out.push('…');
        out
    }
}

/// A shortened text is never longer than asked for, but for the sign of the cut.
pub proof fn shortened_is_short(s: Seq<char>, max: int)
    requires
        0 <= max,
    ensures
        shortened(s, max).len() <= max + 1,
        shortened(s, max).len() <= s.len() || shortened(s, max).len() == max + 1,
        s.len() <= max ==> shortened(s, max) == s,
{
}

/// Whether a line has nothing on it.
pub open spec fn blank(line: Seq<char>) -> bool {
    trimmed(chomped(line)).len() == 0
}

/// The complaint about a line that is no document.
pub open spec fn complaint(e: Seq<char>, line: Seq<char>) -> Seq<char> {
    e + "; line="@ + shortened(chomped(line), 200)
}

/// Reads the document on a line: none on an empty line, and the reason where there is something
/// else on it.
pub fn read_line(line: &str) -> (r: Result<Option<Json>, String>)
    ensures
        match r {
            Ok(None) => blank(line@),
            Ok(Some(j)) => !blank(line@) && parsed(chomped(line@)) == Ok::<JsonView, Seq<char>>(j@),
            Err(s) => !blank(line@) && (parsed(chomped(line@)) matches Err(e) && s@ == complaint(e, line@)),
        },
{
    let s = text::chomp(line);
    if text::trim(s.as_str()).as_str().is_empty() {
        return Ok(None);
    }
    match Json::parse(s.as_str()) {
        Ok(j) => Ok(Some(j)),
        Err(e) => Err(bad_line(e.as_str(), s.as_str())),
    }
}

/// The complaint about a line, its line end already gone.
pub fn bad_line(e: &str, s: &str) -> (r: String)
    ensures
        r@ == e@ + "; line="@ + shortened(s@, 200),
{
    let mut out = e.to_owned();
    out.append("; line=");
    out.append(shorten(s, 200).as_str());
    out
}

/// Whether reading a line gives this document.
pub open spec fn carries(line: Seq<char>, j: JsonView) -> bool {
    !blank(line) && parsed(chomped(line)) == Ok::<JsonView, Seq<char>>(j)
}

proof fn lemma_not_blank(s: Seq<char>)
    requires
        s.len() > 0,
        !text::white(s[0]),
    ensures
        trimmed(s).len() > 0,
{
    lemma_trim_back(s);
}

proof fn lemma_trim_back(s: Seq<char>)
    requires
        s.len() > 0,
        !text::white(s[0]),
    ensures
        text::trim_back(s).len() > 0,
        text::trim_back(s)[0] == s[0],
    decreases s.len(),
{
    if s.len() > 1 && text::white(s.last()) {
        lemma_trim_back(s.drop_last());
    }
}

/// A document as a line: it ends the line, and no line ends before. Without doubles, and where it
/// is not too deep, reading the line gives the document back.
pub fn write_line(v: &Json) -> (r: String)
    ensures
        r@ == compact(v@) + "\n"@,
        r@.last() == '\n',
        forall|i: int| 0 <= i < r@.len() - 1 ==> #[trigger] r@[i] != '\n',
        whole(v@, DEPTH as int) ==> carries(r@, v@),
{
    let mut out = v.to_text();
    let ghost s = out@;
    out.append("\n");
    proof {
        reveal_strlit("\n");
        assert(out@ =~= s.push('\n'));
        assert(out@.drop_last() =~= s);
        assert(s.last() != '\n' && s.last() != '\r');
        reveal_with_fuel(chomped, 2);
        assert(chomped(out@) == s);
        lemma_not_blank(s);
    }
    out
}

/// A shortened text is the beginning of the text, with a sign exactly where something was cut off.
pub proof fn shortened_is_the_beginning(s: Seq<char>, max: int)
    requires
        0 <= max,
    ensures
        s.len() > max ==> shortened(s, max).len() == max + 1 && shortened(s, max).take(max) == s.take(max) && shortened(
            s,
            max,
        ).last() == '…',
        s.len() <= max ==> shortened(s, max) == s,
{
    if s.len() > max {
        assert(shortened(s, max).take(max) =~= s.take(max));
    }
}

/// Of a line its line ends go, as many as stand behind it, and nothing else.
pub proof fn only_line_ends_go(line: Seq<char>) -> (k: int)
    ensures
        0 <= k <= line.len(),
        chomped(line) == line.take(k),
        k > 0 ==> line[k - 1] != '\n' && line[k - 1] != '\r',
        forall|i: int| k <= i < line.len() ==> (#[trigger] line[i] == '\n' || line[i] == '\r'),
    decreases line.len(),
{
    if line.len() > 0 && (line.last() == '\n' || line.last() == '\r') {
        let r = line.drop_last();
        let k = only_line_ends_go(r);
        assert(r.take(k) =~= line.take(k));
        assert forall|i: int| k <= i < line.len() implies (#[trigger] line[i] == '\n' || line[i] == '\r') by {
            if i < r.len() {
                assert(r[i] == line[i]);
            }
        }
        k
    } else {
        assert(line.take(line.len() as int) =~= line);
        line.len() as int
    }
}

} // verus!
