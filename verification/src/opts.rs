//! Options on a command line.

use vstd::prelude::*;
use crate::table::Table;
use crate::text;
use crate::text::begins;
use crate::text::past;
use crate::text::uint_value;
use crate::text::views;

verus! {

/// Options by name.
#[derive(Debug, Clone)]
pub struct Opts {
    m: Table<String>,
}

/// What options map names to, from argument `i` on. An option is followed by its value, unless
/// another option follows; then its value is `1`.
pub open spec fn options(m: Map<Seq<char>, Seq<char>>, args: Seq<Seq<char>>, i: int) -> Map<Seq<char>, Seq<char>>
    decreases args.len() - i,
{
    if i >= args.len() || i < 0 {
        m
    } else {
        match past(args[i], "--"@) {
            Some(key) => if i + 1 < args.len() && !begins(args[i + 1], "--"@) {
                options(m.insert(key, args[i + 1]), args, i + 2)
            } else {
                options(m.insert(key, "1"@), args, i + 1)
            },
            None => options(m, args, i + 1),
        }
    }
}

impl View for Opts {
    type V = Map<Seq<char>, Seq<char>>;

    closed spec fn view(&self) -> Map<Seq<char>, Seq<char>> {
        self.m@.map_values(|s: String| s@)
    }
}

impl Opts {
    /// The value of an option.
    pub fn val(&self, key: &str) -> (r: Option<&str>)
        ensures
            match r {
                Some(s) => self@.contains_key(key@) && s@ == self@[key@],
                None => !self@.contains_key(key@),
            },
    {
        match self.m.get(key) {
            Some(s) => Some(s.as_str()),
            None => None,
        }
    }

    /// The value of an option that is a number.
    pub fn num(&self, key: &str) -> (r: Option<u64>)
        ensures
            (match r {
                Some(n) => Some(n as int),
                None => None,
            }) == (if self@.contains_key(key@) {
                uint_value(self@[key@], u64::MAX as int)
            } else {
                None
            }),
    {
        match self.val(key) {
            Some(s) => text::parse_uint(s, u64::MAX),
            None => None,
        }
    }

    /// Whether an option is given.
    pub fn flag(&self, key: &str) -> (r: bool)
        ensures
            r == self@.contains_key(key@),
    {
        self.m.contains(key)
    }
}

/// The options on a command line.
pub fn parse_opts(args: &[String]) -> (r: Opts)
    ensures
        r@ == options(Map::<Seq<char>, Seq<char>>::empty(), views(args@), 0),
{
    let ghost x = views(args@);
    let mut o = Opts { m: Table::new() };
    let n: usize = args.len();
    let mut i: usize = 0;
    assert(o@ =~= Map::<Seq<char>, Seq<char>>::empty());
    while i < n
        invariant
            n == args@.len(),
            x == views(args@),
            i <= n,
            options(Map::<Seq<char>, Seq<char>>::empty(), x, 0) == options(o@, x, i as int),
        decreases n - i,
    {
        let a = args[i].as_str();
        assert(x[i as int] == a@);
        let ghost before = o@;
        match text::strip_prefix(a, "--") {
            Some(key) => {
                if i + 1 < n && !text::starts_with(args[i + 1].as_str(), "--") {
                    assert(x[i + 1] == args@[i + 1]@);
                    let v = args[i + 1].clone();
                    o.m.set(key.as_str(), v);
                    assert(o@ =~= before.insert(key@, x[i + 1]));
                    i += 2;
                } else {
                    proof {
                        if i + 1 < n {
                            assert(x[i + 1] == args@[i + 1]@);
                        }
                    }
                    o.m.set(key.as_str(), "1".to_owned());
                    assert(o@ =~= before.insert(key@, "1"@));
                    i += 1;
                }
            },
            None => {
                i += 1;
            },
        }
    }
    o
}

/// The command on a command line, and where its options begin: the first argument, unless that is
/// an option already; then the command is `run`.
pub fn command(args: &Vec<String>) -> (r: (String, usize))
    ensures
        ({
            let first = args@.len() > 0 && !begins(args@[0]@, "--"@);
            &&& r.0@ == (if first {
                args@[0]@
            } else {
                "run"@
            })
            &&& r.1 == (if first {
                1int
            } else {
                0int
            })
        }),
{
    if args.len() > 0 && !text::starts_with(args[0].as_str(), "--") {
        (args[0].clone(), 1)
    } else {
        ("run".to_owned(), 0)
    }
}

proof fn lemma_untouched(m: Map<Seq<char>, Seq<char>>, args: Seq<Seq<char>>, i: int, key: Seq<char>)
    requires
        0 <= i,
        forall|q: int| i <= q < args.len() ==> #[trigger] past(args[q], "--"@) != Some(key),
    ensures
        options(m, args, i).contains_key(key) == m.contains_key(key),
        m.contains_key(key) ==> options(m, args, i)[key] == m[key],
    decreases args.len() - i,
{
    if i < args.len() {
        assert(past(args[i], "--"@) != Some(key));
        match past(args[i], "--"@) {
            Some(k) => {
                if i + 1 < args.len() && !begins(args[i + 1], "--"@) {
                    lemma_untouched(m.insert(k, args[i + 1]), args, i + 2, key);
                } else {
                    lemma_untouched(m.insert(k, "1"@), args, i + 1, key);
                }
            },
            None => {
                lemma_untouched(m, args, i + 1, key);
            },
        }
    }
}

/// An option has the value that stands behind it the last time it is given; without one, because it
/// stands last or because another option follows, it counts as given.
pub proof fn options_have_their_values(m: Map<Seq<char>, Seq<char>>, args: Seq<Seq<char>>, i: int, key: Seq<char>)
    requires
        0 <= i < args.len(),
        args[i] == "--"@ + key,
        forall|q: int| i < q < args.len() ==> #[trigger] past(args[q], "--"@) != Some(key),
    ensures
        ({
            let r = options(m, args, i);
            &&& r.contains_key(key)
            &&& i + 1 < args.len() && !begins(args[i + 1], "--"@) ==> r[key] == args[i + 1]
            &&& i + 1 == args.len() || begins(args[i + 1], "--"@) ==> r[key] == "1"@
        }),
{
    let d = "--"@;
    assert(args[i].subrange(0, d.len() as int) =~= d);
    assert(args[i].skip(d.len() as int) =~= key);
    if i + 1 < args.len() && !begins(args[i + 1], d) {
        lemma_untouched(m.insert(key, args[i + 1]), args, i + 2, key);
    } else {
        lemma_untouched(m.insert(key, "1"@), args, i + 1, key);
    }
}

/// An option that is not given is not there.
pub proof fn options_are_not_made_up(args: Seq<Seq<char>>, key: Seq<char>)
    requires
        forall|q: int| 0 <= q < args.len() ==> #[trigger] past(args[q], "--"@) != Some(key),
    ensures
        !options(Map::<Seq<char>, Seq<char>>::empty(), args, 0).contains_key(key),
{
    lemma_untouched(Map::<Seq<char>, Seq<char>>::empty(), args, 0, key);
}

} // verus!
