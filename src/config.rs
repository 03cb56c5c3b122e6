//! The option map and the reader for its flat `key = value` text format.
use vstd::prelude::*;
use crate::text::{find_from, lemma_next_of_bounds, next_of, trim_range, trimmed};

verus! {

/// The map that a sequence of assignments builds: a later one for a key wins.
pub open spec fn map_of(s: Seq<(Seq<char>, Seq<char>)>) -> Map<Seq<char>, Seq<char>>
    decreases s.len(),
{
    if s.len() == 0 {
        Map::empty()
    } else {
        map_of(s.drop_last()).insert(s.last().0, s.last().1)
    }
}

/// The assignments that a list of owned pairs holds.
pub open spec fn pairs_view(v: Seq<(String, String)>) -> Seq<(Seq<char>, Seq<char>)> {
    Seq::new(v.len(), |i: int| (v[i].0@, v[i].1@))
}

/// Options by name, each with a string value. A name that is absent is unset.
pub struct Config {
    entries: Vec<(String, String)>,
}

impl View for Config {
    type V = Map<Seq<char>, Seq<char>>;

    closed spec fn view(&self) -> Map<Seq<char>, Seq<char>> {
        map_of(pairs_view(self.entries@))
    }
}

/// Quiet mode is on only where the option `quiet` is set to exactly `true`; any
/// other value, or none, leaves progress logging on.
pub open spec fn quiet_in(m: Map<Seq<char>, Seq<char>>) -> bool {
    m.contains_key("quiet"@) && m["quiet"@] == "true"@
}

proof fn lemma_map_of_tail(s: Seq<(Seq<char>, Seq<char>)>, k: Seq<char>, j: int)
    requires
        0 <= j <= s.len(),
        forall|i: int| j <= i < s.len() ==> s[i].0 != k,
    ensures
        map_of(s).contains_key(k) == map_of(s.take(j)).contains_key(k),
        map_of(s).contains_key(k) ==> map_of(s)[k] == map_of(s.take(j))[k],
    decreases s.len() - j,
{
    if j < s.len() {
        assert(s.drop_last().take(j) =~= s.take(j));
        lemma_map_of_tail(s.drop_last(), k, j);
    } else {
        assert(s.take(j) =~= s);
    }
}

impl Config {
    /// The empty map.
    pub fn new() -> (r: Config)
        ensures
            r@ == Map::<Seq<char>, Seq<char>>::empty(),
    {
        let r = Config { entries: Vec::new() };
        assert(pairs_view(r.entries@) =~= Seq::empty());
        r
    }

    /// The map that holds only `quiet = false`.
    pub fn defaults() -> (r: Config)
        ensures
            r@ == Map::<Seq<char>, Seq<char>>::empty().insert("quiet"@, "false"@),
    {
        let mut r = Config::new();
        r.insert(String::from_str("quiet"), String::from_str("false"));
        r
    }

    /// Sets `key` to `value`, replacing any value it had.
    pub fn insert(&mut self, key: String, value: String)
        ensures
            final(self)@ == old(self)@.insert(key@, value@),
    {
        let ghost before = pairs_view(self.entries@);
        self.entries.push((key, value));
        assert(pairs_view(self.entries@).drop_last() =~= before);
    }

    /// The value of `key`, if it is set.
    pub fn get(&self, key: &str) -> (r: Option<String>)
        ensures
            r.is_some() == self@.contains_key(key@),
            r.is_some() ==> r.unwrap()@ == self@[key@],
    {
        let ghost s = pairs_view(self.entries@);
        let k = String::from_str(key);
        let mut j: usize = self.entries.len();
        while j > 0
            invariant
                j <= self.entries@.len(),
                s == pairs_view(self.entries@),
                k@ == key@,
                forall|i: int| j <= i < s.len() ==> s[i].0 != key@,
            decreases j,
        {
            if self.entries[j - 1].0 == k {
                proof {
                    lemma_map_of_tail(s, key@, j as int);
                    assert(s.take(j as int).drop_last() =~= s.take(j - 1));
                    assert(s[j - 1] == (self.entries@[j - 1].0@, self.entries@[j - 1].1@));
                    assert(s.take(j as int).last() == s[j - 1]);
                    assert(self@ == map_of(s));
                }
                return Some(self.entries[j - 1].1.clone());
            }
            j = j - 1;
        }
        proof {
            lemma_map_of_tail(s, key@, 0);
            assert(s.take(0) =~= Seq::empty());
        }
        None
    }

    /// Whether progress logging is suppressed.
    pub fn is_quiet(&self) -> (r: bool)
        ensures
            r == quiet_in(self@),
    {
        match self.get("quiet") {
            Some(v) => {
                let t = String::from_str("true");
                proof {
                    reveal_strlit("quiet");
                }
                v == t
            },
            None => false,
        }
    }
}


/// A line without the carriage return that ended it.
pub open spec fn strip_cr(l: Seq<char>) -> Seq<char> {
    if l.len() > 0 && l.last() == '\r' {
        l.drop_last()
    } else {
        l
    }
}

/// The lines of `t` from index `i` on: each ends at a line feed, which is dropped
/// together with a carriage return just before it; a line feed at the very end
/// opens no further line.
pub open spec fn lines_from(t: Seq<char>, i: int) -> Seq<Seq<char>>
    decreases t.len() - i,
{
    if i < 0 || i >= t.len() {
        Seq::empty()
    } else {
        let e = next_of(t, '\n', i);
        proof {
            lemma_next_of_bounds(t, '\n', i);
        }
        if e < t.len() {
            seq![strip_cr(t.subrange(i, e))] + lines_from(t, e + 1)
        } else {
            seq![t.subrange(i, e)]
        }
    }
}

/// The lines of a text.
pub open spec fn lines_of(t: Seq<char>) -> Seq<Seq<char>> {
    lines_from(t, 0)
}

/// A line that holds exactly one `=` assigns its trimmed right side to its trimmed
/// left side; any other line is invalid.
pub open spec fn parse_line(l: Seq<char>) -> Option<(Seq<char>, Seq<char>)> {
    let p = next_of(l, '=', 0);
    if p < l.len() && next_of(l, '=', p + 1) == l.len() {
        Some((trimmed(l.subrange(0, p)), trimmed(l.subrange(p + 1, l.len() as int))))
    } else {
        None
    }
}

/// The assignments of the valid lines, in order.
pub open spec fn assignments(ls: Seq<Seq<char>>) -> Seq<(Seq<char>, Seq<char>)>
    decreases ls.len(),
{
    if ls.len() == 0 {
        Seq::empty()
    } else {
        match parse_line(ls.last()) {
            Some(kv) => assignments(ls.drop_last()).push(kv),
            None => assignments(ls.drop_last()),
        }
    }
}

/// The invalid lines, in order.
pub open spec fn invalid_lines(ls: Seq<Seq<char>>) -> Seq<Seq<char>>
    decreases ls.len(),
{
    if ls.len() == 0 {
        Seq::empty()
    } else {
        match parse_line(ls.last()) {
            Some(_) => invalid_lines(ls.drop_last()),
            None => invalid_lines(ls.drop_last()).push(ls.last()),
        }
    }
}

/// The map that a configuration text describes.
pub open spec fn config_of_text(t: Seq<char>) -> Map<Seq<char>, Seq<char>> {
    map_of(assignments(lines_of(t)))
}

/// The texts of a list of strings.
pub open spec fn strings_view(v: Seq<String>) -> Seq<Seq<char>> {
    Seq::new(v.len(), |i: int| v[i]@)
}

/// What reading a configuration text gives: the map, and each line that was
/// skipped as invalid, for the caller to report.
pub struct ConfigLoad {
    pub config: Config,
    pub invalid: Vec<String>,
}

/// Reads one line of a configuration text.
pub fn parse_config_line(line: &str) -> (r: Option<(String, String)>)
    ensures
        match parse_line(line@) {
            Some(kv) => r.is_some() && r.unwrap().0@ == kv.0 && r.unwrap().1@ == kv.1,
            None => r.is_none(),
        },
{
    let n = line.unicode_len();
    let p = find_from(line, '=', 0);
    proof {
        lemma_next_of_bounds(line@, '=', 0);
    }
    if p < n {
        let q = find_from(line, '=', p + 1);
        if q == n {
            return Some((trim_range(line, 0, p), trim_range(line, p + 1, n)));
        }
    }
    None
}

/// Reads a configuration text of `key = value` lines. A later assignment of a key
/// wins; a line that does not hold exactly one `=` is skipped and handed back.
pub fn parse_config_text(text: &str) -> (r: ConfigLoad)
    ensures
        r.config@ == config_of_text(text@),
        strings_view(r.invalid@) == invalid_lines(lines_of(text@)),
{
    let ghost t = text@;
    let n = text.unicode_len();
    let mut config = Config::new();
    let mut invalid: Vec<String> = Vec::new();
    let mut i: usize = 0;
    let ghost mut done: Seq<Seq<char>> = Seq::empty();
    assert(done + lines_from(t, 0) =~= lines_from(t, 0));
    while i < n
        invariant
            t == text@,
            n == t.len(),
            i <= n,
            done + lines_from(t, i as int) == lines_from(t, 0),
            config@ == map_of(assignments(done)),
            strings_view(invalid@) == invalid_lines(done),
        decreases n - i,
    {
        let e = find_from(text, '\n', i);
        proof {
            lemma_next_of_bounds(t, '\n', i as int);
        }
        let mut end: usize = e;
        if e < n && e > i && text.get_char(e - 1) == '\r' {
            end = e - 1;
        }
        let line = text.substring_char(i, end);
        let ghost l = if e < n { strip_cr(t.subrange(i as int, e as int)) } else { t.subrange(i as int, e as int) };
        assert(line@ =~= l);
        let ghost before = done;
        match parse_config_line(line) {
            Some(kv) => {
                config.insert(kv.0, kv.1);
            },
            None => {
                let ghost iv = invalid@;
                invalid.push(String::from_str(line));
                assert(strings_view(invalid@) =~= strings_view(iv).push(l));
            },
        }
        proof {
            done = done.push(l);
            assert(done.drop_last() =~= before);
            if let Some(kv) = parse_line(l) {
                assert(assignments(done) == assignments(before).push(kv));
                assert(assignments(done).drop_last() =~= assignments(before));
            }
            let rest = if e < n { lines_from(t, e + 1) } else { Seq::empty() };
            assert(lines_from(t, i as int) == seq![l] + rest);
            assert(done + rest =~= before + lines_from(t, i as int));
        }
        i = if e < n { e + 1 } else { n };
    }
    ConfigLoad { config, invalid }
}

} // verus!
