//! The daemon's configuration: `key:value` lines read into an entries map,
//! and the one recognized key, `delete_after`, read as the retention
//! threshold. Blank lines and `#` comments are ignored; a line without a `:`
//! is skipped; a later line for a key replaces the earlier value.

use vstd::prelude::*;

use crate::lines::clean_lines;
use crate::lines::copy_range;
use crate::lines::split_lines;
use crate::num::to_int_of;
use crate::num::to_int_spec;
use crate::resolver::bytes_eq;
use crate::resolver::clone_bytes;
use crate::resolver::views;

verus! {

/// Turning a text value into an integer: `str::parse` with every failure
/// mapped to `-1`.
pub trait Conversion: View<V = Seq<u8>> {
    fn to_int(&self) -> (r: isize)
        ensures
            r as int == to_int_spec(self@),
    ;
}

impl Conversion for Vec<u8> {
    fn to_int(&self) -> (r: isize)
        ensures
            r as int == to_int_spec(self@),
    {
        to_int_of(self.as_slice())
    }
}

/// A lookup that falls back to a given default where the key is absent.
pub trait GetOrDefault<T, P> {
    fn get_or_default(&self, key: T, default: P) -> P;
}

/// The map an ordered list of key-value pairs denotes; a later pair for the
/// same key wins.
pub closed spec fn map_of(pairs: Seq<(Vec<u8>, Vec<u8>)>) -> Map<Seq<u8>, Seq<u8>>
    decreases pairs.len(),
{
    if pairs.len() == 0 {
        Map::empty()
    } else {
        map_of(pairs.drop_last()).insert(pairs.last().0@, pairs.last().1@)
    }
}

proof fn lemma_map_of_found(pairs: Seq<(Vec<u8>, Vec<u8>)>, k: Seq<u8>, i: int)
    requires
        0 <= i < pairs.len(),
        pairs[i].0@ == k,
        forall|j: int| i < j < pairs.len() ==> pairs[j].0@ != k,
    ensures
        map_of(pairs).contains_key(k),
        map_of(pairs)[k] == pairs[i].1@,
    decreases pairs.len(),
{
    if i < pairs.len() - 1 {
        assert(pairs.last().0@ != k);
        assert(forall|j: int| 0 <= j < pairs.len() - 1 ==> pairs.drop_last()[j] == pairs[j]);
        lemma_map_of_found(pairs.drop_last(), k, i);
    }
}

proof fn lemma_map_of_absent(pairs: Seq<(Vec<u8>, Vec<u8>)>, k: Seq<u8>)
    requires
        forall|j: int| 0 <= j < pairs.len() ==> pairs[j].0@ != k,
    ensures
        !map_of(pairs).contains_key(k),
    decreases pairs.len(),
{
    if pairs.len() > 0 {
        assert(forall|j: int| 0 <= j < pairs.len() - 1 ==> pairs.drop_last()[j] == pairs[j]);
        lemma_map_of_absent(pairs.drop_last(), k);
    }
}

/// The entries read from a config text, keyed by what stands before the first
/// `:` of each line.
pub struct Entries {
    pairs: Vec<(Vec<u8>, Vec<u8>)>,
}

impl View for Entries {
    type V = Map<Seq<u8>, Seq<u8>>;

    closed spec fn view(&self) -> Map<Seq<u8>, Seq<u8>> {
        map_of(self.pairs@)
    }
}

impl Entries {
    /// An empty entries map.
    pub fn new() -> (r: Entries)
        ensures
            r@ == Map::<Seq<u8>, Seq<u8>>::empty(),
    {
        Entries { pairs: Vec::new() }
    }

    /// The value stored under `key`, where there is one.
    pub fn get(&self, key: &Vec<u8>) -> (r: Option<&Vec<u8>>)
        ensures
            match r {
                Some(v) => self@.contains_key(key@) && v@ == self@[key@],
                None => !self@.contains_key(key@),
            },
    {
        let mut i: usize = self.pairs.len();
        while i > 0
            invariant
                i <= self.pairs@.len(),
                forall|j: int| i <= j < self.pairs@.len() ==> self.pairs@[j].0@ != key@,
            decreases i,
        {
            i -= 1;
            if bytes_eq(self.pairs[i].0.as_slice(), key.as_slice()) {
                proof {
                    lemma_map_of_found(self.pairs@, key@, i as int);
                }
                return Some(&self.pairs[i].1);
            }
        }
        proof {
            lemma_map_of_absent(self.pairs@, key@);
        }
        None
    }

    /// Stores `value` under `key`, replacing any earlier value.
    pub fn insert(&mut self, key: Vec<u8>, value: Vec<u8>)
        ensures
            final(self)@ == old(self)@.insert(key@, value@),
    {
        let ghost pre = self.pairs@;
        let ghost kv = key@;
        let ghost vv = value@;
        self.pairs.push((key, value));
        proof {
            assert(self.pairs@.drop_last() =~= pre);
            assert(self.pairs@.last().0@ == kv && self.pairs@.last().1@ == vv);
        }
    }
}

impl GetOrDefault<Vec<u8>, Vec<u8>> for Entries {
    fn get_or_default(&self, key: Vec<u8>, default: Vec<u8>) -> (r: Vec<u8>)
        ensures
            r@ == if self@.contains_key(key@) {
                self@[key@]
            } else {
                default@
            },
    {
        match self.get(&key) {
            Some(v) => clone_bytes(v),
            None => default,
        }
    }
}

/// Index of the first `:` of a line, `-1` where it has none.
pub open spec fn first_colon(s: Seq<u8>) -> int
    decreases s.len(),
{
    if s.len() == 0 {
        -1
    } else if s[0] == 58 {
        0
    } else {
        let r = first_colon(s.drop_first());
        if r < 0 {
            -1
        } else {
            r + 1
        }
    }
}

proof fn lemma_first_colon_at(s: Seq<u8>, i: int)
    requires
        0 <= i < s.len(),
        s[i] == 58,
        forall|j: int| 0 <= j < i ==> s[j] != 58,
    ensures
        first_colon(s) == i,
    decreases s.len(),
{
    if i > 0 {
        assert(forall|j: int| 0 <= j < s.len() - 1 ==> s.drop_first()[j] == s[j + 1]);
        lemma_first_colon_at(s.drop_first(), i - 1);
    }
}

proof fn lemma_first_colon_none(s: Seq<u8>)
    requires
        forall|j: int| 0 <= j < s.len() ==> s[j] != 58,
    ensures
        first_colon(s) == -1,
    decreases s.len(),
{
    if s.len() > 0 {
        assert(forall|j: int| 0 <= j < s.len() - 1 ==> s.drop_first()[j] == s[j + 1]);
        lemma_first_colon_none(s.drop_first());
    }
}

/// One config line folded into the entries: blank lines, `#` comments and
/// lines without a `:` change nothing; otherwise what stands before the first
/// `:` maps to what stands after it.
pub open spec fn line_step(acc: Map<Seq<u8>, Seq<u8>>, line: Seq<u8>) -> Map<Seq<u8>, Seq<u8>> {
    if line.len() == 0 || line[0] == 35 {
        acc
    } else if first_colon(line) >= 0 {
        acc.insert(line.take(first_colon(line)), line.skip(first_colon(line) + 1))
    } else {
        acc
    }
}

/// A sequence of lines folded into the entries, first line first.
pub open spec fn entries_step(lines: Seq<Seq<u8>>, acc: Map<Seq<u8>, Seq<u8>>) -> Map<
    Seq<u8>,
    Seq<u8>,
>
    decreases lines.len(),
{
    if lines.len() == 0 {
        acc
    } else {
        entries_step(lines.drop_first(), line_step(acc, lines[0]))
    }
}

/// The entries map a whole config text denotes.
pub open spec fn entries_of(s: Seq<u8>) -> Map<Seq<u8>, Seq<u8>> {
    entries_step(clean_lines(s), Map::empty())
}

/// Reads `key:value` lines into `entries`. Blank lines and lines beginning
/// with `#` are ignored, lines without a `:` are skipped, unknown keys are
/// kept for callers to ignore.
pub fn parse_lines(contents: &Vec<u8>, entries: &mut Entries)
    ensures
        final(entries)@ == entries_step(clean_lines(contents@), old(entries)@),
{
    let lines = split_lines(contents);
    let ghost all = clean_lines(contents@);
    proof {
        assert(views(lines@).skip(0) =~= views(lines@));
    }
    let mut k: usize = 0;
    while k < lines.len()
        invariant
            k <= lines@.len(),
            views(lines@) == all,
            entries_step(all, old(entries)@) == entries_step(
                views(lines@).skip(k as int),
                entries@,
            ),
        decreases lines@.len() - k,
    {
        let line = &lines[k];
        let ghost rest = views(lines@).skip(k as int);
        proof {
            assert(rest[0] == line@);
            assert(rest.drop_first() =~= views(lines@).skip(k + 1));
        }
        if line.len() == 0 || line[0] == 35 {
            assert(line_step(entries@, line@) == entries@);
        } else {
            let mut j: usize = 0;
            while j < line.len() && line[j] != 58
                invariant
                    j <= line@.len(),
                    forall|m: int| 0 <= m < j ==> line@[m] != 58,
                decreases line@.len() - j,
            {
                j += 1;
            }
            if j < line.len() {
                proof {
                    lemma_first_colon_at(line@, j as int);
                }
                let key = copy_range(line, 0, j);
                let value = copy_range(line, j + 1, line.len());
                proof {
                    assert(key@ =~= line@.take(first_colon(line@)));
                    assert(value@ =~= line@.skip(first_colon(line@) + 1));
                }
                entries.insert(key, value);
            } else {
                proof {
                    lemma_first_colon_none(line@);
                }
            }
        }
        k += 1;
    }
    proof {
        assert(views(lines@).skip(lines@.len() as int) =~= Seq::<Seq<u8>>::empty());
    }
}

/// The daemon's configuration, loaded once at startup and immutable for the
/// life of the process.
pub struct Config {
    /// Retention threshold in days; `-1` where the configured value was not a
    /// parseable integer.
    pub delete_after: isize,
}

/// The byte string `delete_after`, the one recognized config key.
pub open spec fn delete_after_key() -> Seq<u8> {
    seq![100u8, 101u8, 108u8, 101u8, 116u8, 101u8, 95u8, 97u8, 102u8, 116u8, 101u8, 114u8]
}

/// The byte string `1`, the value used where the key is absent.
pub open spec fn default_value() -> Seq<u8> {
    seq![49u8]
}

/// The retention setting a config text denotes: its `delete_after` value read
/// as an integer, the default `1` where the key is absent, `-1` where the
/// value does not parse.
pub open spec fn delete_after_of(s: Seq<u8>) -> int {
    if entries_of(s).contains_key(delete_after_key()) {
        to_int_spec(entries_of(s)[delete_after_key()])
    } else {
        to_int_spec(default_value())
    }
}

impl Config {
    /// The configuration a config text denotes.
    pub fn from_contents(contents: &Vec<u8>) -> (r: Config)
        ensures
            r.delete_after as int == delete_after_of(contents@),
    {
        let mut entries = Entries::new();
        parse_lines(contents, &mut entries);
        let key: Vec<u8> = vec![100u8, 101u8, 108u8, 101u8, 116u8, 101u8, 95u8, 97u8, 102u8, 116u8, 101u8, 114u8];
        proof {
            assert(key@ =~= delete_after_key());
        }
        match entries.get(&key) {
            Some(v) => Config { delete_after: v.to_int() },
            None => {
                let one: Vec<u8> = vec![49u8];
                proof {
                    assert(one@ =~= default_value());
                }
                Config { delete_after: one.to_int() }
            },
        }
    }

    /// The retention threshold actually applied, in days: `delete_after`
    /// itself, or the default `1` where the configured value was negative
    /// (`-1` stands both for an explicit request for the default and for an
    /// unparsable value).
    pub fn effective_delete_after(&self) -> (r: u64)
        ensures
            r as int == if self.delete_after >= 0 {
                self.delete_after as int
            } else {
                1
            },
    {
        if self.delete_after >= 0 {
            self.delete_after as u64
        } else {
            1
        }
    }

    /// The content a freshly materialized config file gets.
    pub fn get_default_config_string() -> (r: String)
        ensures
            r@ == "delete_after:1"@,
    {
        let default_config = "delete_after:1".to_owned();
        default_config
    }
}

} // verus!
