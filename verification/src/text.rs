//! Text as sequences of characters: building, comparing and cutting strings.

use vstd::prelude::*;

verus! {

/// `String::push`: appends one character at the end.
pub assume_specification[ String::push ](s: &mut String, c: char)
    ensures
        final(s)@ == old(s)@.push(c),
;

/// Whether two strings hold the same characters.
pub fn same(a: &str, b: &str) -> (r: bool)
    ensures
        r == (a@ == b@),
{
    a.to_owned() == b.to_owned()
}

/// The characters of a string, in order.
pub fn chars_of(s: &str) -> (r: Vec<char>)
    ensures
        r@ == s@,
{
    let mut out: Vec<char> = Vec::new();
    for c in it: s.chars()
        invariant
            it.seq() == s@,
            out@ == s@.take(it.index() as int),
    {
        proof {
            assert(s@.take(it.index() + 1) =~= s@.take(it.index() as int).push(s@[it.index() as int]));
        }
        out.push(c);
    }
    assert(s@.take(s@.len() as int) =~= s@);
    out
}

/// The string made of the characters `v[from..to]`.
pub fn text_of(v: &[char], from: usize, to: usize) -> (r: String)
    requires
        from <= to <= v@.len(),
    ensures
        r@ == v@.subrange(from as int, to as int),
{
    let mut out = String::new();
    let mut i: usize = from;
    while i < to
        invariant
            from <= i <= to <= v@.len(),
            out@ == v@.subrange(from as int, i as int),
        decreases to - i,
    {
        proof {
            assert(v@.subrange(from as int, i + 1) =~= v@.subrange(from as int, i as int).push(v@[i as int]));
        }
        out.push(v[i]);
        i += 1;
    }
    out
}

/// The decimal digit of `d`, for `d` below ten.
pub open spec fn digit(d: int) -> char {
    if d == 0 {
        '0'
    } else if d == 1 {
        '1'
    } else if d == 2 {
        '2'
    } else if d == 3 {
        '3'
    } else if d == 4 {
        '4'
    } else if d == 5 {
        '5'
    } else if d == 6 {
        '6'
    } else if d == 7 {
        '7'
    } else if d == 8 {
        '8'
    } else {
        '9'
    }
}

/// `n` in decimal, without leading zeros.
pub open spec fn dec(n: int) -> Seq<char>
    decreases n,
{
    if n < 10 {
        seq![digit(n)]
    } else {
        dec(n / 10).push(digit(n % 10))
    }
}

fn digit_char(d: u64) -> (r: char)
    requires
        d < 10,
    ensures
        r == digit(d as int),
{
    if d == 0 {
        '0'
    } else if d == 1 {
        '1'
    } else if d == 2 {
        '2'
    } else if d == 3 {
        '3'
    } else if d == 4 {
        '4'
    } else if d == 5 {
        '5'
    } else if d == 6 {
        '6'
    } else if d == 7 {
        '7'
    } else if d == 8 {
        '8'
    } else {
        '9'
    }
}

/// Appends `n` in decimal.
pub fn push_dec(out: &mut String, n: u64)
    ensures
        final(out)@ == old(out)@ + dec(n as int),
    decreases n,
{
    if n >= 10 {
        push_dec(out, n / 10);
    }
    out.push(digit_char(n % 10));
    assert(out@ =~= old(out)@ + dec(n as int));
}

/// Appends `n` in decimal.
pub fn push_dec_wide(out: &mut String, n: u128)
    ensures
        final(out)@ == old(out)@ + dec(n as int),
    decreases n,
{
    if n >= 10 {
        push_dec_wide(out, n / 10);
    }
    out.push(digit_char((n % 10) as u64));
    assert(out@ =~= old(out)@ + dec(n as int));
}

/// `n` in decimal.
pub fn dec_text(n: u64) -> (r: String)
    ensures
        r@ == dec(n as int),
{
    let mut out = String::new();
    push_dec(&mut out, n);
    assert(out@ =~= dec(n as int));
    out
}

/// `n` copies of `c`.
pub open spec fn repeat(c: char, n: int) -> Seq<char> {
    Seq::new(if n > 0 { n as nat } else { 0 }, |i: int| c)
}

/// Appends `n` copies of `c`.
pub fn push_repeat(out: &mut String, c: char, n: usize)
    ensures
        final(out)@ == old(out)@ + repeat(c, n as int),
{
    let mut i: usize = 0;
    let ghost base = out@;
    while i < n
        invariant
            i <= n,
            out@ == base + repeat(c, i as int),
        decreases n - i,
    {
        out.push(c);
        i += 1;
        assert(out@ =~= base + repeat(c, i as int));
    }
    assert(out@ =~= base + repeat(c, n as int));
}

/// `s` filled on the left with `c` up to `w` characters.
pub open spec fn pad_left(s: Seq<char>, w: int, c: char) -> Seq<char> {
    repeat(c, w - s.len()) + s
}

/// `s` filled on the right with `c` up to `w` characters.
pub open spec fn pad_right(s: Seq<char>, w: int, c: char) -> Seq<char> {
    s + repeat(c, w - s.len())
}

/// Appends `s`, filled on the left with `c` up to `w` characters.
pub fn push_pad_left(out: &mut String, s: &str, w: usize, c: char)
    ensures
        final(out)@ == old(out)@ + pad_left(s@, w as int, c),
{
    let n: usize = s.unicode_len();
    let fill: usize = if w > n { w - n } else { 0 };
    push_repeat(out, c, fill);
    assert(repeat(c, fill as int) =~= repeat(c, w - s@.len()));
    out.append(s);
    assert(out@ =~= old(out)@ + pad_left(s@, w as int, c));
}

/// Appends `s`, filled on the right with `c` up to `w` characters.
pub fn push_pad_right(out: &mut String, s: &str, w: usize, c: char)
    ensures
        final(out)@ == old(out)@ + pad_right(s@, w as int, c),
{
    let n: usize = s.unicode_len();
    let fill: usize = if w > n { w - n } else { 0 };
    out.append(s);
    push_repeat(out, c, fill);
    assert(repeat(c, fill as int) =~= repeat(c, w - s@.len()));
    assert(out@ =~= old(out)@ + pad_right(s@, w as int, c));
}

/// Whether `s` begins with `p`.
pub open spec fn begins(s: Seq<char>, p: Seq<char>) -> bool {
    p.len() <= s.len() && s.subrange(0, p.len() as int) == p
}

/// Whether `s` ends with `p`.
pub open spec fn ends(s: Seq<char>, p: Seq<char>) -> bool {
    p.len() <= s.len() && s.subrange(s.len() - p.len(), s.len() as int) == p
}

/// Whether `p` stands in `s` at position `i`.
pub open spec fn stands_at(s: Seq<char>, p: Seq<char>, i: int) -> bool {
    0 <= i && i + p.len() <= s.len() && s.subrange(i, i + p.len()) == p
}

fn matches_at(s: &[char], p: &[char], i: usize) -> (r: bool)
    ensures
        r == stands_at(s@, p@, i as int),
{
    let n: usize = s.len();
    if p.len() > n || i > n - p.len() {
        return false;
    }
    let mut k: usize = 0;
    while k < p.len()
        invariant
            k <= p@.len(),
            n == s@.len(),
            i + p@.len() <= n,
            forall|j: int| 0 <= j < k ==> s@[i + j] == p@[j],
        decreases p@.len() - k,
    {
        if s[i + k] != p[k] {
            assert(s@.subrange(i as int, i + p@.len())[k as int] != p@[k as int]);
            return false;
        }
        k += 1;
    }
    assert(s@.subrange(i as int, i + p@.len()) =~= p@);
    true
}

/// Whether `s` begins with `p`.
pub fn starts_with(s: &str, p: &str) -> (r: bool)
    ensures
        r == begins(s@, p@),
{
    let a = chars_of(s);
    let b = chars_of(p);
    matches_at(a.as_slice(), b.as_slice(), 0)
}

/// Whether `s` ends with `p`.
pub fn ends_with(s: &str, p: &str) -> (r: bool)
    ensures
        r == ends(s@, p@),
{
    let a = chars_of(s);
    let b = chars_of(p);
    if b.len() > a.len() {
        return false;
    }
    matches_at(a.as_slice(), b.as_slice(), a.len() - b.len())
}

/// The order of text: character by character, a proper prefix first.
pub open spec fn text_le(a: Seq<char>, b: Seq<char>) -> bool
    decreases a.len(),
{
    if a.len() == 0 {
        true
    } else if b.len() == 0 {
        false
    } else if a[0] == b[0] {
        text_le(a.drop_first(), b.drop_first())
    } else {
        a[0] < b[0]
    }
}

fn le_from(a: &[char], b: &[char], k: usize) -> (r: bool)
    requires
        k <= a@.len(),
        k <= b@.len(),
    ensures
        r == text_le(a@.skip(k as int), b@.skip(k as int)),
    decreases a@.len() - k,
{
    if k == a.len() {
        true
    } else if k == b.len() {
        false
    } else {
        assert(a@.skip(k as int).drop_first() =~= a@.skip(k + 1));
        assert(b@.skip(k as int).drop_first() =~= b@.skip(k + 1));
        if a[k] == b[k] {
            le_from(a, b, k + 1)
        } else {
            a[k] < b[k]
        }
    }
}

/// Whether `a` comes no later than `b`.
pub fn not_after(a: &str, b: &str) -> (r: bool)
    ensures
        r == text_le(a@, b@),
{
    let x = chars_of(a);
    let y = chars_of(b);
    assert(x@.skip(0) =~= x@);
    assert(y@.skip(0) =~= y@);
    le_from(x.as_slice(), y.as_slice(), 0)
}

/// The order of text is reflexive.
pub proof fn text_le_reflexive(a: Seq<char>)
    ensures
        text_le(a, a),
    decreases a.len(),
{
    if a.len() > 0 {
        text_le_reflexive(a.drop_first());
    }
}

/// Any two texts are ordered one way or the other.
pub proof fn text_le_total(a: Seq<char>, b: Seq<char>)
    ensures
        text_le(a, b) || text_le(b, a),
    decreases a.len(),
{
    if a.len() > 0 && b.len() > 0 && a[0] == b[0] {
        text_le_total(a.drop_first(), b.drop_first());
    }
}

/// The order of text is transitive.
pub proof fn text_le_transitive(a: Seq<char>, b: Seq<char>, c: Seq<char>)
    requires
        text_le(a, b),
        text_le(b, c),
    ensures
        text_le(a, c),
    decreases a.len(),
{
    if a.len() > 0 && b.len() > 0 && c.len() > 0 && a[0] == b[0] && b[0] == c[0] {
        text_le_transitive(a.drop_first(), b.drop_first(), c.drop_first());
    }
}

/// Two texts that come no later than each other are the same text.
pub proof fn text_le_antisymmetric(a: Seq<char>, b: Seq<char>)
    requires
        text_le(a, b),
        text_le(b, a),
    ensures
        a == b,
    decreases a.len(),
{
    if a.len() > 0 && b.len() > 0 && a[0] == b[0] {
        text_le_antisymmetric(a.drop_first(), b.drop_first());
        assert(a =~= seq![a[0]] + a.drop_first());
        assert(b =~= seq![b[0]] + b.drop_first());
    } else {
        assert(a =~= b);
    }
}

/// Whether `c` is an ASCII letter or digit.
pub open spec fn ascii_alnum(c: char) -> bool {
    ('0' <= c && c <= '9') || ('a' <= c && c <= 'z') || ('A' <= c && c <= 'Z')
}

/// Whether `c` is an ASCII letter or digit.
pub fn is_ascii_alnum(c: char) -> (r: bool)
    ensures
        r == ascii_alnum(c),
{
    ('0' <= c && c <= '9') || ('a' <= c && c <= 'z') || ('A' <= c && c <= 'Z')
}

/// The views of a list of strings.
pub open spec fn views(v: Seq<String>) -> Seq<Seq<char>> {
    v.map_values(|s: String| s@)
}

/// A copy of an optional string.
pub fn copy_opt(v: &Option<String>) -> (r: Option<String>)
    ensures
        r == *v,
{
    match v {
        Some(s) => Some(s.clone()),
        None => None,
    }
}

/// The view of an optional string.
pub open spec fn opt_view(v: Option<String>) -> Option<Seq<char>> {
    match v {
        Some(s) => Some(s@),
        None => None,
    }
}

/// `x` put into an ascending list of names, unless it is there already.
pub open spec fn with_name(s: Seq<Seq<char>>, x: Seq<char>) -> Seq<Seq<char>>
    decreases s.len(),
{
    if s.len() == 0 {
        seq![x]
    } else if s.last() == x {
        s
    } else if text_le(s.last(), x) {
        s.push(x)
    } else {
        with_name(s.drop_last(), x).push(s.last())
    }
}

/// The different names in `s`, ascending.
pub open spec fn name_list(s: Seq<Seq<char>>) -> Seq<Seq<char>>
    decreases s.len(),
{
    if s.len() == 0 {
        Seq::empty()
    } else {
        with_name(name_list(s.drop_last()), s.last())
    }
}

/// Puts `x` into an ascending list of names, unless it is there already.
pub fn insert_name(v: &mut Vec<String>, x: &str)
    ensures
        views(final(v)@) == with_name(views(old(v)@), x@),
{
    let ghost s = views(v@);
    let mut k: usize = v.len();
    assert(s.take(s.len() as int) =~= s);
    assert(s.skip(s.len() as int) =~= Seq::empty());
    assert(with_name(s, x@) =~= with_name(s.take(k as int), x@) + s.skip(k as int));
    while k > 0 && !same(v[k - 1].as_str(), x) && !not_after(v[k - 1].as_str(), x)
        invariant
            k <= v@.len(),
            s == views(v@),
            with_name(s, x@) == with_name(s.take(k as int), x@) + s.skip(k as int),
        decreases k,
    {
        proof {
            let t = s.take(k as int);
            assert(t.last() == v@[k - 1]@);
            assert(t.drop_last() =~= s.take(k - 1));
            assert(s.skip(k - 1) =~= seq![s[k - 1]] + s.skip(k as int));
            assert(with_name(s, x@) =~= with_name(s.take(k - 1), x@) + s.skip(k - 1));
        }
        k -= 1;
    }
    let ghost t = s.take(k as int);
    if k > 0 && same(v[k - 1].as_str(), x) {
        proof {
            assert(t.last() == x@);
            assert(views(v@) =~= with_name(s, x@));
        }
    } else {
        proof {
            if k > 0 {
                assert(t.last() == v@[k - 1]@);
            }
            assert(with_name(t, x@) =~= t.push(x@));
        }
        v.insert(k, x.to_owned());
        assert(views(v@) =~= with_name(s, x@));
    }
}

/// A list of names comes ascending, each name once, and holds exactly the names put in.
pub proof fn name_list_is_sorted(s: Seq<Seq<char>>)
    ensures
        forall|i: int, j: int|
            0 <= i < j < name_list(s).len() ==> text_le(#[trigger] name_list(s)[i], #[trigger] name_list(s)[j])
                && name_list(s)[i] != name_list(s)[j],
        forall|x: Seq<char>| #[trigger] name_list(s).contains(x) <==> s.contains(x),
    decreases s.len(),
{
    if s.len() > 0 {
        let r = name_list(s.drop_last());
        name_list_is_sorted(s.drop_last());
        lemma_with_name(r, s.last());
        assert forall|x: Seq<char>| #[trigger] name_list(s).contains(x) <==> s.contains(x) by {
            if s.contains(x) {
                let i = choose|i: int| 0 <= i < s.len() && s[i] == x;
                if i < s.len() - 1 {
                    assert(s.drop_last()[i] == x);
                }
            }
            if s.drop_last().contains(x) {
                let i = choose|i: int| 0 <= i < s.drop_last().len() && s.drop_last()[i] == x;
                assert(s[i] == x);
            }
            if x == s.last() {
                assert(s[s.len() - 1] == x);
            }
        }
    }
}

proof fn lemma_with_name(r: Seq<Seq<char>>, x: Seq<char>)
    requires
        forall|i: int, j: int| 0 <= i < j < r.len() ==> text_le(#[trigger] r[i], #[trigger] r[j]) && r[i] != r[j],
    ensures
        forall|i: int, j: int|
            0 <= i < j < with_name(r, x).len() ==> text_le(#[trigger] with_name(r, x)[i], #[trigger] with_name(r, x)[j])
                && with_name(r, x)[i] != with_name(r, x)[j],
        forall|y: Seq<char>| #[trigger] with_name(r, x).contains(y) <==> r.contains(y) || y == x,
    decreases r.len(),
{
    let w = with_name(r, x);
    if r.len() == 0 {
        assert(w =~= seq![x]);
        assert forall|y: Seq<char>| #[trigger] w.contains(y) <==> r.contains(y) || y == x by {
            assert(w[0] == x);
        }
    } else if r.last() == x {
        assert(r[r.len() - 1] == x);
    } else if text_le(r.last(), x) {
        assert forall|i: int, j: int| 0 <= i < j < w.len() implies text_le(#[trigger] w[i], #[trigger] w[j]) && w[i]
            != w[j] by {
            if j == r.len() {
                if i < r.len() - 1 {
                    assert(text_le(r[i], r[r.len() - 1]));
                    text_le_transitive(r[i], r.last(), x);
                    if r[i] == x {
                        text_le_antisymmetric(r[i], r.last());
                    }
                }
            }
        }
        assert forall|y: Seq<char>| #[trigger] w.contains(y) <==> r.contains(y) || y == x by {
            if r.contains(y) {
                let i = choose|i: int| 0 <= i < r.len() && r[i] == y;
                assert(w[i] == y);
            }
            if y == x {
                assert(w[r.len() as int] == y);
            }
            if w.contains(y) {
                let i = choose|i: int| 0 <= i < w.len() && w[i] == y;
                if i < r.len() {
                    assert(r[i] == y);
                }
            }
        }
    } else {
        let d = r.drop_last();
        let z = r.last();
        assert forall|i: int, j: int| 0 <= i < j < d.len() implies text_le(#[trigger] d[i], #[trigger] d[j]) && d[i]
            != d[j] by {
            assert(d[i] == r[i] && d[j] == r[j]);
        }
        lemma_with_name(d, x);
        let u = with_name(d, x);
        text_le_total(z, x);
        assert forall|y: Seq<char>| #[trigger] u.contains(y) implies text_le(y, z) && y != z by {
            if d.contains(y) {
                let i = choose|i: int| 0 <= i < d.len() && d[i] == y;
                assert(r[i] == y && r[r.len() - 1] == z);
            }
        }
        assert forall|i: int, j: int| 0 <= i < j < w.len() implies text_le(#[trigger] w[i], #[trigger] w[j]) && w[i]
            != w[j] by {
            if j == u.len() {
                assert(u.contains(u[i]));
            }
        }
        assert forall|y: Seq<char>| #[trigger] w.contains(y) <==> r.contains(y) || y == x by {
            if w.contains(y) {
                let i = choose|i: int| 0 <= i < w.len() && w[i] == y;
                if i < u.len() {
                    assert(u[i] == y);
                    assert(u.contains(y));
                    if d.contains(y) {
                        let k = choose|k: int| 0 <= k < d.len() && d[k] == y;
                        assert(r[k] == y);
                    }
                } else {
                    assert(r[r.len() - 1] == y);
                }
            }
            if r.contains(y) {
                let i = choose|i: int| 0 <= i < r.len() && r[i] == y;
                if i < d.len() {
                    assert(d[i] == y);
                    assert(u.contains(y));
                    let k = choose|k: int| 0 <= k < u.len() && u[k] == y;
                    assert(w[k] == y);
                } else {
                    assert(w[u.len() as int] == y);
                }
            }
            if y == x {
                assert(u.contains(y));
                let k = choose|k: int| 0 <= k < u.len() && u[k] == y;
                assert(w[k] == y);
            }
        }
    }
}

/// The different names in `s`, in the order of their first occurrence.
pub open spec fn distinct(s: Seq<Seq<char>>) -> Seq<Seq<char>>
    decreases s.len(),
{
    if s.len() == 0 {
        Seq::empty()
    } else {
        let r = distinct(s.drop_last());
        if r.contains(s.last()) {
            r
        } else {
            r.push(s.last())
        }
    }
}

/// Texts joined by a separator.
pub open spec fn join(s: Seq<Seq<char>>, sep: Seq<char>) -> Seq<char>
    decreases s.len(),
{
    if s.len() == 0 {
        Seq::empty()
    } else if s.len() == 1 {
        s[0]
    } else {
        join(s.drop_last(), sep) + sep + s.last()
    }
}

/// Texts joined by a separator.
pub fn join_of(v: &Vec<String>, sep: &str) -> (r: String)
    ensures
        r@ == join(views(v@), sep@),
{
    let ghost x = views(v@);
    let mut out = String::new();
    let mut i: usize = 0;
    while i < v.len()
        invariant
            i <= v@.len(),
            x == views(v@),
            out@ == join(x.take(i as int), sep@),
        decreases v@.len() - i,
    {
        proof {
            assert(x.take(i + 1).drop_last() =~= x.take(i as int));
            assert(x.take(i + 1).last() == v@[i as int]@);
        }
        if i > 0 {
            out.append(sep);
        }
        out.append(v[i].as_str());
        assert(out@ =~= join(x.take(i + 1), sep@));
        i += 1;
    }
    assert(x.take(x.len() as int) =~= x);
    out
}

/// Appends a string to a list.
pub fn push_text(v: &mut Vec<String>, s: String)
    ensures
        views(final(v)@) == views(old(v)@).push(s@),
{
    let ghost before = v@;
    let ghost t = s@;
    v.push(s);
    assert(views(v@) =~= views(before).push(t));
}

/// Whether a list holds a name.
pub fn lists(ids: &Vec<String>, id: &str) -> (r: bool)
    ensures
        r == views(ids@).contains(id@),
{
    let mut i: usize = 0;
    while i < ids.len()
        invariant
            i <= ids@.len(),
            forall|j: int| 0 <= j < i ==> (#[trigger] ids@[j])@ != id@,
        decreases ids@.len() - i,
    {
        if same(ids[i].as_str(), id) {
            assert(views(ids@)[i as int] == id@);
            return true;
        }
        i += 1;
    }
    proof {
        if views(ids@).contains(id@) {
            let i = choose|i: int| 0 <= i < views(ids@).len() && views(ids@)[i] == id@;
            assert(ids@[i]@ == id@);
        }
    }
    false
}

/// Whether `c` has the White_Space property of Unicode.
pub open spec fn white(c: char) -> bool {
    ||| '\u{9}' <= c <= '\u{d}'
    ||| c == ' '
    ||| c == '\u{85}'
    ||| c == '\u{a0}'
    ||| c == '\u{1680}'
    ||| '\u{2000}' <= c <= '\u{200a}'
    ||| c == '\u{2028}'
    ||| c == '\u{2029}'
    ||| c == '\u{202f}'
    ||| c == '\u{205f}'
    ||| c == '\u{3000}'
}

/// Whether `c` has the White_Space property of Unicode.
pub fn is_white(c: char) -> (r: bool)
    ensures
        r == white(c),
{
    ('\u{9}' <= c && c <= '\u{d}') || c == ' ' || c == '\u{85}' || c == '\u{a0}' || c == '\u{1680}' || ('\u{2000}' <= c
        && c <= '\u{200a}') || c == '\u{2028}' || c == '\u{2029}' || c == '\u{202f}' || c == '\u{205f}' || c == '\u{3000}'
}

/// `s` without white space in front.
pub open spec fn trim_front(s: Seq<char>) -> Seq<char>
    decreases s.len(),
{
    if s.len() > 0 && white(s[0]) {
        trim_front(s.drop_first())
    } else {
        s
    }
}

/// `s` without white space at the end.
pub open spec fn trim_back(s: Seq<char>) -> Seq<char>
    decreases s.len(),
{
    if s.len() > 0 && white(s.last()) {
        trim_back(s.drop_last())
    } else {
        s
    }
}

/// `s` without white space around it.
pub open spec fn trimmed(s: Seq<char>) -> Seq<char> {
    trim_back(trim_front(s))
}

/// `s` without white space around it.
pub fn trim(s: &str) -> (r: String)
    ensures
        r@ == trimmed(s@),
{
    let v = chars_of(s);
    let n: usize = v.len();
    let mut a: usize = 0;
    assert(v@.subrange(0, n as int) =~= v@);
    while a < n && is_white(v[a])
        invariant
            a <= n == v@.len(),
            trim_front(v@) == trim_front(v@.subrange(a as int, n as int)),
        decreases n - a,
    {
        assert(v@.subrange(a as int, n as int).drop_first() =~= v@.subrange(a + 1, n as int));
        a += 1;
    }
    assert(trim_front(v@) == v@.subrange(a as int, n as int));
    let mut b: usize = n;
    while b > a && is_white(v[b - 1])
        invariant
            a <= b <= n == v@.len(),
            trim_back(v@.subrange(a as int, n as int)) == trim_back(v@.subrange(a as int, b as int)),
        decreases b,
    {
        assert(v@.subrange(a as int, b as int).drop_last() =~= v@.subrange(a as int, b - 1));
        b -= 1;
    }
    assert(trim_back(v@.subrange(a as int, b as int)) == v@.subrange(a as int, b as int));
    text_of(v.as_slice(), a, b)
}

/// `s` without line ends behind it.
pub open spec fn chomped(s: Seq<char>) -> Seq<char>
    decreases s.len(),
{
    if s.len() > 0 && (s.last() == '\n' || s.last() == '\r') {
        chomped(s.drop_last())
    } else {
        s
    }
}

/// `s` without line ends behind it.
pub fn chomp(s: &str) -> (r: String)
    ensures
        r@ == chomped(s@),
{
    let v = chars_of(s);
    let mut b: usize = v.len();
    assert(v@.subrange(0, b as int) =~= v@);
    while b > 0 && (v[b - 1] == '\n' || v[b - 1] == '\r')
        invariant
            b <= v@.len(),
            chomped(v@) == chomped(v@.subrange(0, b as int)),
        decreases b,
    {
        assert(v@.subrange(0, b as int).drop_last() =~= v@.subrange(0, b - 1));
        b -= 1;
    }
    text_of(v.as_slice(), 0, b)
}

/// `s` with `with` in place of every occurrence of `pat`, from the front.
pub open spec fn replaced(s: Seq<char>, pat: Seq<char>, with: Seq<char>) -> Seq<char>
    decreases s.len(),
{
    if s.len() == 0 || pat.len() == 0 {
        s
    } else if begins(s, pat) {
        with + replaced(s.skip(pat.len() as int), pat, with)
    } else {
        seq![s[0]] + replaced(s.drop_first(), pat, with)
    }
}

/// `s` with `with` in place of every occurrence of `pat`, from the front.
pub fn replace(s: &str, pat: &str, with: &str) -> (r: String)
    requires
        pat@.len() > 0,
    ensures
        r@ == replaced(s@, pat@, with@),
{
    let v = chars_of(s);
    let p = chars_of(pat);
    let n: usize = v.len();
    let mut out = String::new();
    let mut i: usize = 0;
    assert(v@.skip(0) =~= v@);
    assert(out@ + replaced(v@.skip(0), pat@, with@) =~= replaced(v@, pat@, with@));
    while i < n
        invariant
            i <= n == v@.len(),
            p@ == pat@,
            pat@.len() > 0,
            out@ + replaced(v@.skip(i as int), pat@, with@) == replaced(v@, pat@, with@),
        decreases n - i,
    {
        let ghost rest = v@.skip(i as int);
        let ghost before = out@;
        let hit = matches_at(v.as_slice(), p.as_slice(), i);
        proof {
            if hit {
                assert(rest.subrange(0, p@.len() as int) =~= v@.subrange(i as int, i + p@.len()));
            } else if begins(rest, pat@) {
                assert(v@.subrange(i as int, i + p@.len()) =~= rest.subrange(0, p@.len() as int));
            }
        }
        if hit {
            out.append(with);
            proof {
                assert(rest.skip(p@.len() as int) =~= v@.skip(i + p@.len()));
                assert(out@ + replaced(v@.skip(i + p@.len()), pat@, with@) =~= before + replaced(rest, pat@, with@));
            }
            i += p.len();
        } else {
            out.push(v[i]);
            proof {
                assert(rest.drop_first() =~= v@.skip(i + 1));
                assert(out@ + replaced(v@.skip(i + 1), pat@, with@) =~= before + replaced(rest, pat@, with@));
            }
            i += 1;
        }
    }
    assert(v@.skip(n as int) =~= Seq::empty());
    assert(out@ + replaced(v@.skip(n as int), pat@, with@) =~= out@);
    out
}

/// The position of the first `c` in `s`, or the length of `s` if there is none.
pub open spec fn cut_at(s: Seq<char>, c: char) -> int
    decreases s.len(),
{
    if s.len() == 0 || s[0] == c {
        0
    } else {
        1 + cut_at(s.drop_first(), c)
    }
}

/// What stands in front of the first `c`.
pub open spec fn head_of(s: Seq<char>, c: char) -> Seq<char> {
    s.take(cut_at(s, c))
}

/// What stands behind the first `c`; none where there is no `c`.
pub open spec fn tail_of(s: Seq<char>, c: char) -> Option<Seq<char>> {
    if cut_at(s, c) < s.len() {
        Some(s.skip(cut_at(s, c) + 1))
    } else {
        None
    }
}

/// Where a cut falls: on the first `c`, or behind everything.
pub proof fn lemma_cut_at(s: Seq<char>, c: char)
    ensures
        0 <= cut_at(s, c) <= s.len(),
        cut_at(s, c) < s.len() ==> s[cut_at(s, c)] == c,
        forall|j: int| 0 <= j < cut_at(s, c) ==> (#[trigger] s[j]) != c,
    decreases s.len(),
{
    if s.len() > 0 && s[0] != c {
        lemma_cut_at(s.drop_first(), c);
        assert forall|j: int| 0 <= j < cut_at(s, c) implies (#[trigger] s[j]) != c by {
            if j > 0 {
                assert(s[j] == s.drop_first()[j - 1]);
            }
        }
    }
}

/// Cuts a string at the first `c`: what stands in front, and what stands behind if there is a `c`.
pub fn split_once(s: &str, c: char) -> (r: (String, Option<String>))
    ensures
        r.0@ == head_of(s@, c),
        opt_view(r.1) == tail_of(s@, c),
{
    let v = chars_of(s);
    let n: usize = v.len();
    let mut i: usize = 0;
    proof {
        lemma_cut_at(s@, c);
    }
    while i < n && v[i] != c
        invariant
            i <= n == v@.len(),
            v@ == s@,
            i <= cut_at(s@, c),
            cut_at(s@, c) < s@.len() ==> s@[cut_at(s@, c)] == c,
            cut_at(s@, c) <= s@.len(),
            forall|j: int| 0 <= j < cut_at(s@, c) ==> (#[trigger] s@[j]) != c,
        decreases n - i,
    {
        i += 1;
    }
    let head = text_of(v.as_slice(), 0, i);
    assert(head@ =~= head_of(s@, c));
    if i < n {
        let tail = text_of(v.as_slice(), i + 1, n);
        assert(tail@ =~= s@.skip(cut_at(s@, c) + 1));
        (head, Some(tail))
    } else {
        (head, None)
    }
}

/// What stands behind a prefix; none where the string does not begin with it.
pub open spec fn past(s: Seq<char>, p: Seq<char>) -> Option<Seq<char>> {
    if begins(s, p) {
        Some(s.skip(p.len() as int))
    } else {
        None
    }
}

/// What stands behind a prefix.
pub fn strip_prefix(s: &str, p: &str) -> (r: Option<String>)
    ensures
        opt_view(r) == past(s@, p@),
{
    let a = chars_of(s);
    let b = chars_of(p);
    if matches_at(a.as_slice(), b.as_slice(), 0) {
        let t = text_of(a.as_slice(), b.len(), a.len());
        assert(t@ =~= s@.skip(p@.len() as int));
        Some(t)
    } else {
        None
    }
}

/// `c` in lower case, if it is an ASCII letter.
pub open spec fn lower(c: char) -> char {
    if c == 'A' { 'a' } else if c == 'B' { 'b' } else if c == 'C' { 'c' } else if c == 'D' { 'd' }
    else if c == 'E' { 'e' } else if c == 'F' { 'f' } else if c == 'G' { 'g' } else if c == 'H' { 'h' }
    else if c == 'I' { 'i' } else if c == 'J' { 'j' } else if c == 'K' { 'k' } else if c == 'L' { 'l' }
    else if c == 'M' { 'm' } else if c == 'N' { 'n' } else if c == 'O' { 'o' } else if c == 'P' { 'p' }
    else if c == 'Q' { 'q' } else if c == 'R' { 'r' } else if c == 'S' { 's' } else if c == 'T' { 't' }
    else if c == 'U' { 'u' } else if c == 'V' { 'v' } else if c == 'W' { 'w' } else if c == 'X' { 'x' }
    else if c == 'Y' { 'y' } else if c == 'Z' { 'z' } else { c }
}

fn lower_of(c: char) -> (r: char)
    ensures
        r == lower(c),
{
    if c == 'A' { 'a' } else if c == 'B' { 'b' } else if c == 'C' { 'c' } else if c == 'D' { 'd' }
    else if c == 'E' { 'e' } else if c == 'F' { 'f' } else if c == 'G' { 'g' } else if c == 'H' { 'h' }
    else if c == 'I' { 'i' } else if c == 'J' { 'j' } else if c == 'K' { 'k' } else if c == 'L' { 'l' }
    else if c == 'M' { 'm' } else if c == 'N' { 'n' } else if c == 'O' { 'o' } else if c == 'P' { 'p' }
    else if c == 'Q' { 'q' } else if c == 'R' { 'r' } else if c == 'S' { 's' } else if c == 'T' { 't' }
    else if c == 'U' { 'u' } else if c == 'V' { 'v' } else if c == 'W' { 'w' } else if c == 'X' { 'x' }
    else if c == 'Y' { 'y' } else if c == 'Z' { 'z' } else { c }
}

/// `s` with its ASCII letters in lower case.
pub open spec fn lowered(s: Seq<char>) -> Seq<char> {
    s.map_values(|c: char| lower(c))
}

/// `s` with its ASCII letters in lower case.
pub fn to_lower(s: &str) -> (r: String)
    ensures
        r@ == lowered(s@),
{
    let v = chars_of(s);
    let mut out = String::new();
    let mut i: usize = 0;
    while i < v.len()
        invariant
            i <= v@.len(),
            v@ == s@,
            out@.len() == i,
            forall|j: int| 0 <= j < i ==> #[trigger] out@[j] == lower(s@[j]),
        decreases v@.len() - i,
    {
        out.push(lower_of(v[i]));
        i += 1;
    }
    assert(out@ =~= lowered(s@));
    out
}

/// What stands behind the last `c`, or all of `s` if there is no `c`.
pub open spec fn behind_last(s: Seq<char>, c: char) -> Seq<char>
    decreases s.len(),
{
    match tail_of(s, c) {
        Some(t) => if t.len() < s.len() {
            behind_last(t, c)
        } else {
            t
        },
        None => s,
    }
}

/// What stands behind the last `c`, or all of `s` if there is no `c`.
pub fn after_last(s: &str, c: char) -> (r: String)
    ensures
        r@ == behind_last(s@, c),
    decreases s@.len(),
{
    proof {
        lemma_cut_at(s@, c);
    }
    match split_once(s, c).1 {
        Some(t) => after_last(t.as_str(), c),
        None => s.to_owned(),
    }
}

/// The value of a decimal digit; none for any other character.
pub open spec fn digit_value(c: char) -> Option<int> {
    if c == '0' {
        Some(0)
    } else if c == '1' {
        Some(1)
    } else if c == '2' {
        Some(2)
    } else if c == '3' {
        Some(3)
    } else if c == '4' {
        Some(4)
    } else if c == '5' {
        Some(5)
    } else if c == '6' {
        Some(6)
    } else if c == '7' {
        Some(7)
    } else if c == '8' {
        Some(8)
    } else if c == '9' {
        Some(9)
    } else {
        None
    }
}

fn digit_of(c: char) -> (r: Option<u64>)
    ensures
        (match r {
            Some(d) => Some(d as int),
            None => None,
        }) == digit_value(c),
        r matches Some(d) ==> d < 10,
{
    if c == '0' {
        Some(0)
    } else if c == '1' {
        Some(1)
    } else if c == '2' {
        Some(2)
    } else if c == '3' {
        Some(3)
    } else if c == '4' {
        Some(4)
    } else if c == '5' {
        Some(5)
    } else if c == '6' {
        Some(6)
    } else if c == '7' {
        Some(7)
    } else if c == '8' {
        Some(8)
    } else if c == '9' {
        Some(9)
    } else {
        None
    }
}

/// The value of a sequence of decimal digits; none if anything else is in it.
pub open spec fn digits_value(s: Seq<char>) -> Option<int>
    decreases s.len(),
{
    if s.len() == 0 {
        Some(0)
    } else {
        match (digits_value(s.drop_last()), digit_value(s.last())) {
            (Some(v), Some(d)) => Some(v * 10 + d),
            _ => None,
        }
    }
}

/// The number that a text is: digits, at least one, with a plus sign in front or without.
pub open spec fn number_value(s: Seq<char>) -> Option<int> {
    let d = if s.len() > 0 && s[0] == '+' {
        s.drop_first()
    } else {
        s
    };
    if d.len() == 0 {
        None
    } else {
        digits_value(d)
    }
}

/// The number that a text is, up to a limit.
pub open spec fn uint_value(s: Seq<char>, max: int) -> Option<int> {
    match number_value(s) {
        Some(v) => if v <= max {
            Some(v)
        } else {
            None
        },
        None => None,
    }
}

proof fn lemma_digits_grow(s: Seq<char>, i: int)
    requires
        0 <= i <= s.len(),
        digits_value(s) is Some,
    ensures
        digits_value(s.take(i)) is Some,
        0 <= digits_value(s.take(i))->0 <= digits_value(s)->0,
    decreases s.len(),
{
    if i == s.len() {
        assert(s.take(i) =~= s);
        if i > 0 {
            lemma_digits_grow(s.drop_last(), i - 1);
        }
    } else {
        lemma_digits_grow(s.drop_last(), i);
        assert(s.drop_last().take(i) =~= s.take(i));
    }
}

proof fn lemma_digits_bad(s: Seq<char>, i: int)
    requires
        0 <= i <= s.len(),
        digits_value(s.take(i)) is None,
    ensures
        digits_value(s) is None,
{
    if digits_value(s) is Some {
        lemma_digits_grow(s, i);
    }
}

/// The number that a text is, up to a limit.
pub fn parse_uint(s: &str, max: u64) -> (r: Option<u64>)
    ensures
        (match r {
            Some(v) => Some(v as int),
            None => None,
        }) == uint_value(s@, max as int),
{
    let v = chars_of(s);
    let n: usize = v.len();
    let from: usize = if n > 0 && v[0] == '+' {
        1
    } else {
        0
    };
    if from == n {
        proof {
            if n > 0 {
                assert(s@.drop_first() =~= Seq::empty());
            }
        }
        return None;
    }
    let ghost d = s@.skip(from as int);
    assert(from == 1 ==> s@.drop_first() =~= d);
    assert(from == 0 ==> s@ =~= d);
    let mut acc: u64 = 0;
    let mut i: usize = from;
    assert(d.take(0) =~= Seq::empty());
    while i < n
        invariant
            from <= i <= n == v@.len(),
            v@ == s@,
            d == s@.skip(from as int),
            acc <= max,
            digits_value(d.take(i - from)) == Some(acc as int),
            number_value(s@) == digits_value(d),
        decreases n - i,
    {
        proof {
            assert(d.take(i - from + 1).drop_last() =~= d.take(i - from));
            assert(d.take(i - from + 1).last() == v@[i as int]);
        }
        match digit_of(v[i]) {
            Some(x) => {
                let wide: u128 = acc as u128 * 10 + x as u128;
                if wide > max as u128 {
                    proof {
                        if digits_value(d) is Some {
                            lemma_digits_grow(d, i - from + 1);
                        }
                    }
                    return None;
                }
                acc = wide as u64;
            },
            None => {
                proof {
                    lemma_digits_bad(d, i - from + 1);
                }
                return None;
            },
        }
        i += 1;
    }
    assert(d.take(n - from) =~= d);
    Some(acc)
}

/// A line without the carriage return at its end.
pub open spec fn strip_cr(s: Seq<char>) -> Seq<char> {
    if s.len() > 0 && s.last() == '\r' {
        s.drop_last()
    } else {
        s
    }
}

/// The lines of a text. A line ends with a line feed, or with a carriage return and a line feed;
/// the last one may do without.
pub open spec fn lines(s: Seq<char>) -> Seq<Seq<char>>
    decreases s.len(),
{
    if s.len() == 0 {
        Seq::empty()
    } else {
        match tail_of(s, '\n') {
            Some(t) => if t.len() < s.len() {
                seq![strip_cr(head_of(s, '\n'))] + lines(t)
            } else {
                Seq::empty()
            },
            None => seq![s],
        }
    }
}

/// The lines of a text.
pub fn lines_of(s: &str) -> (r: Vec<String>)
    ensures
        views(r@) == lines(s@),
{
    let mut out: Vec<String> = Vec::new();
    let mut rest = s.to_owned();
    assert(views(out@) =~= Seq::<Seq<char>>::empty());
    assert(views(out@) + lines(rest@) =~= lines(s@));
    while !rest.as_str().is_empty()
        invariant
            views(out@) + lines(rest@) == lines(s@),
        decreases rest@.len(),
    {
        proof {
            lemma_cut_at(rest@, '\n');
        }
        let ghost before = views(out@);
        let (head, tail) = split_once(rest.as_str(), '\n');
        match tail {
            Some(t) => {
                let h = chars_of(head.as_str());
                let m: usize = h.len();
                let line = if m > 0 && h[m - 1] == '\r' {
                    text_of(h.as_slice(), 0, m - 1)
                } else {
                    head
                };
                assert(line@ =~= strip_cr(head_of(rest@, '\n')));
                push_text(&mut out, line);
                assert(views(out@) + lines(t@) =~= before + lines(rest@));
                rest = t;
            },
            None => {
                push_text(&mut out, rest);
                rest = String::new();
                assert(views(out@) + lines(rest@) =~= lines(s@));
            },
        }
    }
    assert(views(out@) =~= lines(s@));
    out
}

/// The first word of `s`: what stands in front of the first white space.
pub open spec fn word_end(s: Seq<char>) -> int
    decreases s.len(),
{
    if s.len() == 0 || white(s[0]) {
        0
    } else {
        1 + word_end(s.drop_first())
    }
}

/// The second word of `s`, words standing apart by white space; none where there is only one.
pub open spec fn second_word(s: Seq<char>) -> Option<Seq<char>> {
    let a = trim_front(s);
    let b = trim_front(a.skip(word_end(a)));
    if b.len() == 0 {
        None
    } else {
        Some(b.take(word_end(b)))
    }
}

fn skip_white(v: &[char], from: usize) -> (r: usize)
    requires
        from <= v@.len(),
    ensures
        from <= r <= v@.len(),
        trim_front(v@.skip(from as int)) == v@.skip(r as int),
{
    let mut i: usize = from;
    while i < v.len() && is_white(v[i])
        invariant
            from <= i <= v@.len(),
            trim_front(v@.skip(from as int)) == trim_front(v@.skip(i as int)),
        decreases v@.len() - i,
    {
        assert(v@.skip(i as int).drop_first() =~= v@.skip(i + 1));
        i += 1;
    }
    i
}

fn skip_word(v: &[char], from: usize) -> (r: usize)
    requires
        from <= v@.len(),
    ensures
        from <= r <= v@.len(),
        word_end(v@.skip(from as int)) == r - from,
{
    let mut i: usize = from;
    while i < v.len() && !is_white(v[i])
        invariant
            from <= i <= v@.len(),
            word_end(v@.skip(from as int)) == i - from + word_end(v@.skip(i as int)),
        decreases v@.len() - i,
    {
        assert(v@.skip(i as int).drop_first() =~= v@.skip(i + 1));
        i += 1;
    }
    i
}

/// The second word of `s`.
pub fn second_word_of(s: &str) -> (r: Option<String>)
    ensures
        opt_view(r) == second_word(s@),
{
    let v = chars_of(s);
    assert(v@.skip(0) =~= v@);
    let a: usize = skip_white(v.as_slice(), 0);
    let b: usize = skip_word(v.as_slice(), a);
    assert(v@.skip(a as int).skip(b - a) =~= v@.skip(b as int));
    let c: usize = skip_white(v.as_slice(), b);
    if c == v.len() {
        return None;
    }
    let d: usize = skip_word(v.as_slice(), c);
    let w = text_of(v.as_slice(), c, d);
    assert(w@ =~= v@.skip(c as int).take(d - c));
    Some(w)
}

/// How a text is shown between quotes, with what cannot be printed written out.
pub uninterp spec fn quoted(s: Seq<char>) -> Seq<char>;

/// A `str` printed with `{:?}`.
#[verifier::external_body]
pub(crate) fn quote(s: &str) -> (r: String)
    ensures
        r@ == quoted(s@),
{
    format!("{:?}", s)
}

proof fn lemma_digit(d: int)
    requires
        0 <= d < 10,
    ensures
        digit_value(digit(d)) == Some(d),
{
}

/// A number in decimal reads back as that number, and does not begin with a zero unless it is one.
pub proof fn numbers_read_back(n: int)
    requires
        0 <= n,
    ensures
        digits_value(dec(n)) == Some(n),
        dec(n).len() > 0,
        n > 0 ==> dec(n)[0] != '0',
        forall|max: int| n <= max ==> #[trigger] uint_value(dec(n), max) == Some(n),
    decreases n,
{
    if n < 10 {
        lemma_digit(n);
        assert(seq![digit(n)].drop_last() =~= Seq::empty());
        assert(digits_value(Seq::empty()) == Some(0int));
    } else {
        numbers_read_back(n / 10);
        lemma_digit(n % 10);
        assert(dec(n).drop_last() =~= dec(n / 10));
        assert(dec(n)[0] == dec(n / 10)[0]);
    }
    lemma_no_plus(n);
}

proof fn lemma_no_plus(n: int)
    requires
        0 <= n,
    ensures
        dec(n).len() > 0,
        dec(n)[0] != '+',
    decreases n,
{
    if n >= 10 {
        lemma_no_plus(n / 10);
        assert(dec(n)[0] == dec(n / 10)[0]);
    }
}

/// A filled text is the text, as wide as asked at least, with nothing but filling on the one side.
pub proof fn filling_keeps_texts(s: Seq<char>, w: int, c: char)
    ensures
        pad_left(s, w, c).len() == (if w > s.len() {
            w
        } else {
            s.len() as int
        }),
        pad_left(s, w, c).skip(pad_left(s, w, c).len() - s.len()) == s,
        forall|i: int| 0 <= i < pad_left(s, w, c).len() - s.len() ==> #[trigger] pad_left(s, w, c)[i] == c,
        pad_right(s, w, c).len() == pad_left(s, w, c).len(),
        pad_right(s, w, c).take(s.len() as int) == s,
        forall|i: int| s.len() <= i < pad_right(s, w, c).len() ==> #[trigger] pad_right(s, w, c)[i] == c,
{
    assert(pad_left(s, w, c).skip(pad_left(s, w, c).len() - s.len()) =~= s);
    assert(pad_right(s, w, c).take(s.len() as int) =~= s);
}

proof fn lemma_trim_front(s: Seq<char>) -> (k: int)
    ensures
        0 <= k <= s.len(),
        trim_front(s) == s.skip(k),
        forall|i: int| 0 <= i < k ==> white(#[trigger] s[i]),
        k < s.len() ==> !white(s[k]),
    decreases s.len(),
{
    if s.len() > 0 && white(s[0]) {
        let t = s.drop_first();
        let k = lemma_trim_front(t);
        assert(t.skip(k) =~= s.skip(k + 1));
        assert forall|i: int| 0 <= i < k + 1 implies white(#[trigger] s[i]) by {
            if i > 0 {
                assert(s[i] == t[i - 1]);
            }
        }
        if k + 1 < s.len() {
            assert(s[k + 1] == t[k]);
        }
        k + 1
    } else {
        assert(s.skip(0) =~= s);
        0
    }
}

proof fn lemma_trim_back(s: Seq<char>) -> (k: int)
    ensures
        0 <= k <= s.len(),
        trim_back(s) == s.take(k),
        forall|i: int| k <= i < s.len() ==> white(#[trigger] s[i]),
        k > 0 ==> !white(s[k - 1]),
    decreases s.len(),
{
    if s.len() > 0 && white(s.last()) {
        let t = s.drop_last();
        let k = lemma_trim_back(t);
        assert(t.take(k) =~= s.take(k));
        assert forall|i: int| k <= i < s.len() implies white(#[trigger] s[i]) by {
            if i < t.len() {
                assert(s[i] == t[i]);
            }
        }
        k
    } else {
        assert(s.take(s.len() as int) =~= s);
        s.len() as int
    }
}

/// A trimmed text is a piece of the text with nothing but white space around it, and has none at
/// either end.
pub proof fn trimming_takes_white_space_alone(s: Seq<char>) -> (r: (int, int))
    ensures
        0 <= r.0 <= r.1 <= s.len(),
        trimmed(s) == s.subrange(r.0, r.1),
        forall|i: int| 0 <= i < r.0 ==> white(#[trigger] s[i]),
        forall|i: int| r.1 <= i < s.len() ==> white(#[trigger] s[i]),
        trimmed(s).len() > 0 ==> !white(trimmed(s)[0]) && !white(trimmed(s).last()),
{
    let a = lemma_trim_front(s);
    let t = s.skip(a);
    let b = lemma_trim_back(t);
    assert(t.take(b) =~= s.subrange(a, a + b));
    assert forall|i: int| a + b <= i < s.len() implies white(#[trigger] s[i]) by {
        assert(s[i] == t[i - a]);
    }
    (a, a + b)
}

/// Of names with repetitions each stays once, in the order in which they first come.
pub proof fn repetitions_are_left_out(s: Seq<Seq<char>>, x: Seq<char>)
    ensures
        distinct(s).no_duplicates(),
        distinct(s).contains(x) <==> s.contains(x),
        s.len() > 0 ==> distinct(s).len() > 0 && distinct(s)[0] == s[0],
    decreases s.len(),
{
    if s.len() > 0 {
        let r = s.drop_last();
        repetitions_are_left_out(r, x);
        repetitions_are_left_out(r, s.last());
        let d = distinct(r);
        if d.contains(x) {
            let n = choose|n: int| 0 <= n < d.len() && d[n] == x;
            assert(distinct(s)[n] == x);
        }
        if distinct(s).contains(x) {
            let n = choose|n: int| 0 <= n < distinct(s).len() && distinct(s)[n] == x;
            if n < d.len() {
                assert(d[n] == x);
                let m = choose|m: int| 0 <= m < r.len() && r[m] == x;
                assert(s[m] == x);
            } else {
                assert(s[s.len() - 1] == x);
            }
        }
        if s.contains(x) {
            let m = choose|m: int| 0 <= m < s.len() && s[m] == x;
            if m < r.len() {
                assert(r[m] == x);
            } else if !d.contains(x) {
                assert(distinct(s)[d.len() as int] == x);
            }
        }
        if r.len() == 0 {
            assert(s[0] == s.last());
        } else {
            assert(r[0] == s[0]);
        }
    }
}

/// What stands behind the last mark has no such mark, and the mark stands right in front of it where
/// there is one.
pub proof fn the_last_mark_decides(s: Seq<char>, c: char)
    ensures
        !behind_last(s, c).contains(c),
        behind_last(s, c).len() <= s.len(),
        behind_last(s, c) == s.skip(s.len() - behind_last(s, c).len()),
        behind_last(s, c).len() < s.len() ==> s[s.len() - behind_last(s, c).len() - 1] == c,
    decreases s.len(),
{
    lemma_cut_at(s, c);
    match tail_of(s, c) {
        Some(t) => {
            the_last_mark_decides(t, c);
            let k = cut_at(s, c) + 1;
            let b = behind_last(t, c);
            assert(t.skip(t.len() - b.len()) =~= s.skip(s.len() - b.len()));
            if b.len() < t.len() {
                assert(t[t.len() - b.len() - 1] == s[s.len() - b.len() - 1]);
            }
        },
        None => {
            assert(s.skip(0) =~= s);
            if s.contains(c) {
                let n = choose|n: int| 0 <= n < s.len() && s[n] == c;
                assert(s[n] != c);
            }
        },
    }
}

/// A text that has no mark is cut behind it where a mark follows.
pub proof fn lemma_cut_behind(a: Seq<char>, b: Seq<char>, c: char)
    requires
        !a.contains(c),
        b.len() > 0 ==> b[0] == c,
    ensures
        cut_at(a + b, c) == a.len(),
        head_of(a + b, c) == a,
        b.len() > 0 ==> tail_of(a + b, c) == Some(b.drop_first()),
        b.len() == 0 ==> tail_of(a + b, c) is None,
{
    let s = a + b;
    lemma_cut_at(s, c);
    let k = cut_at(s, c);
    if k < a.len() {
        assert(a[k] == c);
        assert(a.contains(a[k]));
    }
    if k > a.len() {
        assert(s[a.len() as int] == c);
    }
    assert(s.take(a.len() as int) =~= a);
    if b.len() > 0 {
        assert(s.skip(cut_at(s, c) + 1) =~= b.drop_first());
    }
}

/// A line ends with its line feed, and the carriage return in front of that is no part of it; what
/// follows are lines of their own.
pub proof fn lines_end_with_their_feed(a: Seq<char>, rest: Seq<char>)
    requires
        !a.contains('\n'),
    ensures
        lines(a + seq!['\n'] + rest) == seq![strip_cr(a)] + lines(rest),
        a.len() > 0 ==> lines(a) == seq![a],
        lines(Seq::empty()).len() == 0,
{
    let b = seq!['\n'] + rest;
    lemma_cut_behind(a, b, '\n');
    assert(a + seq!['\n'] + rest =~= a + b);
    assert(b.drop_first() =~= rest);
    lemma_cut_behind(a, Seq::empty(), '\n');
    assert(a + Seq::<char>::empty() =~= a);
}

/// What stands behind the last mark, where a text without marks follows one.
pub proof fn lemma_behind_mark(a: Seq<char>, c: char, b: Seq<char>)
    requires
        !b.contains(c),
    ensures
        behind_last(a + seq![c] + b, c) == b,
    decreases a.len(),
{
    let s = a + seq![c] + b;
    the_last_mark_decides(s, c);
    let r = behind_last(s, c);
    if r.len() > b.len() {
        let k = s.len() - r.len();
        assert(r[a.len() - k] == s[a.len() as int]);
        assert(r.contains(c));
    }
    if r.len() < b.len() {
        let k = s.len() - r.len() - 1;
        assert(s[k] == b[k - a.len() - 1]);
        assert(b.contains(c));
    }
    assert(r =~= b);
}

/// Texts come in the order of the first characters in which they differ, and a text before what it is
/// the beginning of.
pub proof fn first_differences_decide(a: Seq<char>, b: Seq<char>, k: int)
    requires
        0 <= k < a.len(),
        k < b.len(),
        a.take(k) == b.take(k),
        a[k] < b[k],
    ensures
        text_le(a, b),
        !text_le(b, a),
    decreases k,
{
    if k > 0 {
        assert(a[0] == a.take(k)[0] && b[0] == b.take(k)[0]);
        let x = a.drop_first();
        let y = b.drop_first();
        assert(x.take(k - 1) =~= a.take(k).drop_first());
        assert(y.take(k - 1) =~= b.take(k).drop_first());
        first_differences_decide(x, y, k - 1);
    }
}

/// A text comes before all that it is the beginning of.
pub proof fn beginnings_come_first(a: Seq<char>, b: Seq<char>)
    ensures
        text_le(a, a + b),
        b.len() > 0 ==> !text_le(a + b, a),
    decreases a.len(),
{
    if a.len() > 0 {
        assert((a + b).drop_first() =~= a.drop_first() + b);
        beginnings_come_first(a.drop_first(), b);
    }
}

/// Large letters become the small ones that stand thirty-two places behind them; everything else stays
/// as it is.
pub proof fn letters_become_small(c: char)
    ensures
        'A' <= c <= 'Z' ==> lower(c) as u32 == c as u32 + 32,
        !('A' <= c <= 'Z') ==> lower(c) == c,
{
}

/// Texts are joined with the separator between them: one more is put behind it, and a single one stays as
/// it is.
pub proof fn separators_stand_between(s: Seq<Seq<char>>, x: Seq<char>, sep: Seq<char>)
    ensures
        join(seq![x], sep) == x,
        s.len() > 0 ==> join(s.push(x), sep) == join(s, sep) + sep + x,
        join(Seq::empty(), sep).len() == 0,
{
    assert(s.push(x).drop_last() =~= s);
}

} // verus!
