//! The ancillary key/value store and the tree-name versioning that rides
//! on it.
//!
//! The store is a string-keyed map behind the `KVStore` trait; a
//! persistent backend implements it outside the verified core, and
//! `MemKv` implements it here as a write log.  On top of it,
//! `get_smt_tree_name` resolves a caller's tree name to its current
//! versioned physical name, and `upgrade_smt_tree_version` bumps that
//! version so the old physical tree is abandoned.

use vstd::prelude::*;
use vstd::string::StrSliceExecFns;
use vstd::string::StringExecFns;

verus! {

/// A string-keyed store: a persistent map from keys to values.
pub trait KVStore: Sized {
    /// The map this store holds.
    spec fn view(&self) -> Map<Seq<char>, Seq<char>>;

    /// Opens the store at a path.  An opened store may already hold data,
    /// so nothing is promised of its map.
    fn init(file_path: &str) -> (r: Self);

    /// Writes one binding; on failure the store is unchanged.
    fn save(&mut self, k: &str, v: &str) -> (r: bool)
        ensures
            r ==> final(self).view() == old(self).view().insert(k@, v@),
            !r ==> final(self).view() == old(self).view(),
    ;

    /// Reads the binding of one key.
    fn find(&self, k: &str) -> (r: Option<String>)
        ensures
            match r {
                Option::Some(v) => self.view().contains_key(k@) && v@ == self.view()[k@],
                Option::None => !self.view().contains_key(k@),
            },
    ;

    /// Drops the binding of one key; on failure the store is unchanged.
    fn delete(&mut self, k: &str) -> (r: bool)
        ensures
            r ==> final(self).view() == old(self).view().remove(k@),
            !r ==> final(self).view() == old(self).view(),
    ;
}

/// The map a write log denotes: later records win, a `None` record drops
/// its key.
pub open spec fn kv_map_of(es: Seq<(String, Option<String>)>) -> Map<Seq<char>, Seq<char>>
    decreases es.len(),
{
    if es.len() == 0 {
        Map::empty()
    } else {
        let m = kv_map_of(es.drop_last());
        match es.last().1 {
            Option::Some(v) => m.insert(es.last().0@, v@),
            Option::None => m.remove(es.last().0@),
        }
    }
}

/// The last record of the log that carries key `k`, if any.
pub open spec fn kv_last(es: Seq<(String, Option<String>)>, k: Seq<char>) -> Option<
    Option<Seq<char>>,
>
    decreases es.len(),
{
    if es.len() == 0 {
        Option::None
    } else if es.last().0@ == k {
        match es.last().1 {
            Option::Some(v) => Option::Some(Option::Some(v@)),
            Option::None => Option::Some(Option::None),
        }
    } else {
        kv_last(es.drop_last(), k)
    }
}

/// What the log leaves at one key: nothing if untouched, else what its
/// last record says.
proof fn lemma_kv_map_at(es: Seq<(String, Option<String>)>, k: Seq<char>)
    ensures
        match kv_last(es, k) {
            Option::None => !kv_map_of(es).contains_key(k),
            Option::Some(w) => match w {
                Option::None => !kv_map_of(es).contains_key(k),
                Option::Some(v) => kv_map_of(es).contains_key(k) && kv_map_of(es)[k] == v,
            },
        },
    decreases es.len(),
{
    if es.len() == 0 {
    } else {
        lemma_kv_map_at(es.drop_last(), k);
    }
}

/// An in-memory `KVStore`: a write log, kept whole, read from the end.
pub struct MemKv {
    records: Vec<(String, Option<String>)>,
}

impl KVStore for MemKv {
    closed spec fn view(&self) -> Map<Seq<char>, Seq<char>> {
        kv_map_of(self.records@)
    }

    fn init(file_path: &str) -> (r: Self) {
        let _ = file_path;
        MemKv { records: Vec::new() }
    }

    fn save(&mut self, k: &str, v: &str) -> (r: bool) {
        let ghost prev = self.records@;
        self.records.push((k.to_owned(), Some(v.to_owned())));
        proof {
            assert(self.records@.drop_last() =~= prev);
        }
        true
    }

    fn find(&self, k: &str) -> (r: Option<String>) {
        let n = self.records.len();
        let ks = k.to_owned();
        let mut j: usize = n;
        while j > 0
            invariant
                n == self.records@.len(),
                j <= n,
                ks@ == k@,
                forall|jj: int| j <= jj < n ==> (#[trigger] self.records@[jj]).0@ != k@,
            decreases j,
        {
            j -= 1;
            if self.records[j].0 == ks {
                proof {
                    lemma_kv_map_at(self.records@, k@);
                    lemma_kv_last_tail_misses(self.records@, k@, j as int);
                    assert(self.records@.take(j + 1).last() == self.records@[j as int]);
                }
                match &self.records[j].1 {
                    Some(v) => {
                        return Some(v.clone());
                    },
                    None => {
                        return None;
                    },
                }
            }
        }
        proof {
            lemma_kv_map_at(self.records@, k@);
            lemma_kv_last_none(self.records@, k@);
        }
        None
    }

    fn delete(&mut self, k: &str) -> (r: bool) {
        let ghost prev = self.records@;
        self.records.push((k.to_owned(), None));
        proof {
            assert(self.records@.drop_last() =~= prev);
        }
        true
    }
}

/// When every record past `j` misses the key, the last carrier of the key
/// lies within the first `j + 1` records.
proof fn lemma_kv_last_tail_misses(es: Seq<(String, Option<String>)>, k: Seq<char>, j: int)
    requires
        0 <= j < es.len(),
        forall|jj: int| j < jj < es.len() ==> (#[trigger] es[jj]).0@ != k,
    ensures
        kv_last(es, k) == kv_last(es.take(j + 1), k),
    decreases es.len(),
{
    if j == es.len() - 1 {
        assert(es.take(j + 1) =~= es);
    } else {
        assert(es.last().0@ != k);
        assert(forall|jj: int|
            j < jj < es.drop_last().len() ==> (#[trigger] es.drop_last()[jj]).0@ != k);
        lemma_kv_last_tail_misses(es.drop_last(), k, j);
        assert(es.drop_last().take(j + 1) =~= es.take(j + 1));
    }
}

/// A log none of whose records carries the key leaves it unbound.
proof fn lemma_kv_last_none(es: Seq<(String, Option<String>)>, k: Seq<char>)
    requires
        forall|jj: int| 0 <= jj < es.len() ==> (#[trigger] es[jj]).0@ != k,
    ensures
        kv_last(es, k) is None,
    decreases es.len(),
{
    if es.len() == 0 {
    } else {
        assert(es.last().0@ != k);
        assert(forall|jj: int|
            0 <= jj < es.drop_last().len() ==> (#[trigger] es.drop_last()[jj]).0@ != k);
        lemma_kv_last_none(es.drop_last(), k);
    }
}

/// Whether a string is a plain decimal number: non-empty, digits only.
pub open spec fn is_dec_seq(s: Seq<char>) -> bool {
    s.len() > 0 && forall|i: int| 0 <= i < s.len() ==> '0' <= #[trigger] s[i] <= '9'
}

/// The number a decimal digit string denotes.
pub open spec fn dec_val(s: Seq<char>) -> int
    recommends
        is_dec_seq(s),
    decreases s.len(),
{
    if s.len() == 0 {
        0
    } else {
        10 * dec_val(s.drop_last()) + (s.last() as u32 - 48)
    }
}

/// The decimal digit string of a number, no leading zeros.
pub open spec fn dec_digits(n: int) -> Seq<char>
    recommends
        n >= 0,
    decreases n,
{
    if n < 10 {
        seq![((n + 48) as u8) as char]
    } else {
        dec_digits(n / 10).push((((n % 10) + 48) as u8) as char)
    }
}

/// A formatted number is a plain decimal string that reads back as
/// itself: a stored version stays usable by the next bump.
pub proof fn lemma_dec_digits_round_trip(n: int)
    requires
        n >= 0,
    ensures
        is_dec_seq(dec_digits(n)),
        dec_val(dec_digits(n)) == n,
    decreases n,
{
    if n < 10 {
        let s = seq![((n + 48) as u8) as char];
        assert(s.len() == 1);
        assert('0' <= s[0] <= '9');
        assert(s.drop_last() =~= Seq::<char>::empty());
        assert(dec_val(s) == 10 * dec_val(s.drop_last()) + (s.last() as u32 - 48));
    } else {
        assert(n / 10 < n && n / 10 >= 1) by (nonlinear_arith)
            requires
                n >= 10,
        ;
        lemma_dec_digits_round_trip(n / 10);
        let rest = dec_digits(n / 10);
        let c = (((n % 10) + 48) as u8) as char;
        let s = rest.push(c);
        assert(s.drop_last() =~= rest);
        assert(s.last() == c);
        assert('0' <= c <= '9');
        assert(forall|i: int| 0 <= i < rest.len() ==> '0' <= #[trigger] rest[i] <= '9');
        assert forall|i: int| 0 <= i < s.len() implies '0' <= #[trigger] s[i] <= '9' by {
            if i < rest.len() {
                assert(s[i] == rest[i]);
            }
        }
        assert(dec_val(s) == 10 * dec_val(rest) + (c as u32 - 48));
        assert(c as u32 == (n % 10) + 48);
        assert(10 * (n / 10) + n % 10 == n) by (nonlinear_arith);
    }
}

/// A digit string denotes a non-negative number.
proof fn lemma_dec_val_nonneg(s: Seq<char>)
    requires
        forall|i: int| 0 <= i < s.len() ==> '0' <= #[trigger] s[i] <= '9',
    ensures
        dec_val(s) >= 0,
    decreases s.len(),
{
    if s.len() == 0 {
    } else {
        assert(forall|i: int|
            0 <= i < s.drop_last().len() ==> '0' <= #[trigger] s.drop_last()[i] <= '9');
        lemma_dec_val_nonneg(s.drop_last());
        assert('0' <= s[s.len() - 1] <= '9');
    }
}

/// A digit string's prefix denotes no more than the whole string.
proof fn lemma_dec_val_prefix_le(s: Seq<char>, i: int)
    requires
        forall|j: int| 0 <= j < s.len() ==> '0' <= #[trigger] s[j] <= '9',
        0 <= i <= s.len(),
    ensures
        dec_val(s.take(i)) <= dec_val(s),
    decreases s.len() - i,
{
    if i == s.len() {
        assert(s.take(i) =~= s);
    } else {
        let t = s.take(i + 1);
        assert(t.drop_last() =~= s.take(i));
        assert(t.last() == s[i]);
        assert('0' <= s[i] <= '9');
        assert(forall|j: int| 0 <= j < s.take(i).len() ==> '0' <= #[trigger] s.take(i)[j] <= '9');
        lemma_dec_val_nonneg(s.take(i));
        assert(dec_val(t) == 10 * dec_val(s.take(i)) + (s[i] as u32 - 48));
        assert(dec_val(s.take(i)) <= dec_val(t));
        lemma_dec_val_prefix_le(s, i + 1);
    }
}

/// Parses a plain decimal string into a number.  Returns the number
/// exactly when the string is non-empty, all digits, and its value fits;
/// returns nothing otherwise.
pub fn parse_usize(s: &str) -> (r: Option<usize>)
    ensures
        r matches Some(v) ==> is_dec_seq(s@) && v as int == dec_val(s@) && dec_val(s@)
            <= usize::MAX as int,
        r is None ==> !is_dec_seq(s@) || dec_val(s@) > usize::MAX as int,
{
    let n = s.unicode_len();
    if n == 0 {
        return None;
    }
    let mut acc: usize = 0;
    proof {
        assert(s@.take(0) =~= Seq::<char>::empty());
    }
    let mut i: usize = 0;
    while i < n
        invariant
            n == s@.len(),
            n > 0,
            i <= n,
            acc as int == dec_val(s@.take(i as int)),
            forall|j: int| 0 <= j < i ==> '0' <= #[trigger] s@[j] <= '9',
        decreases n - i,
    {
        let c = s.get_char(i);
        if c < '0' || c > '9' {
            return None;
        }
        let d: usize = (c as u32 - 48) as usize;
        proof {
            let t = s@.take(i + 1);
            assert(t.drop_last() =~= s@.take(i as int));
            assert(t.last() == s@[i as int]);
        }
        acc = match acc.checked_mul(10) {
            Some(a) => match a.checked_add(d) {
                Some(b) => b,
                None => {
                    proof {
                        lemma_parse_overflow(s@, i as int);
                    }
                    return None;
                },
            },
            None => {
                proof {
                    lemma_parse_overflow(s@, i as int);
                }
                return None;
            },
        };
        i += 1;
    }
    proof {
        assert(s@.take(n as int) =~= s@);
    }
    Some(acc)
}

/// If one more digit pushes the running value past the machine bound, the
/// whole string's value is past it too.
proof fn lemma_parse_overflow(s: Seq<char>, i: int)
    requires
        0 <= i < s.len(),
        forall|j: int| 0 <= j <= i ==> '0' <= #[trigger] s[j] <= '9',
        10 * dec_val(s.take(i)) + (s[i] as u32 - 48) > usize::MAX as int,
    ensures
        !is_dec_seq(s) || dec_val(s) > usize::MAX as int,
{
    if is_dec_seq(s) {
        let t = s.take(i + 1);
        assert(t.drop_last() =~= s.take(i));
        assert(t.last() == s[i]);
        assert(dec_val(t) == 10 * dec_val(s.take(i)) + (s[i] as u32 - 48));
        lemma_dec_val_prefix_le(s, i + 1);
    }
}

/// Appends the decimal digits of a number to a string.
fn push_dec(s: &mut String, n: usize)
    ensures
        final(s)@ == old(s)@ + dec_digits(n as int),
    decreases n,
{
    if n >= 10 {
        proof {
            assert(n / 10 < n) by (nonlinear_arith)
                requires
                    n >= 10,
            ;
        }
        push_dec(s, n / 10);
    }
    let d: u8 = (n % 10) as u8;
    let c: char = (d + 48) as char;
    crate::utils::push_char(s, c);
    proof {
        if n < 10 {
            assert(old(s)@ + dec_digits(n as int) =~= old(s)@ + seq![c]);
        } else {
            assert(dec_digits(n as int) == dec_digits(n as int / 10).push(c));
            assert(old(s)@ + dec_digits(n as int) =~= (old(s)@ + dec_digits(n as int / 10)) + seq![
                c,
            ]);
        }
    }
}

/// The decimal string of a number.
pub fn usize_to_string(n: usize) -> (r: String)
    ensures
        r@ == dec_digits(n as int),
{
    let mut r = String::new();
    push_dec(&mut r, n);
    proof {
        assert(Seq::<char>::empty() + dec_digits(n as int) =~= dec_digits(n as int));
    }
    r
}

/// Whether a stored version can be bumped: the name is known and its
/// version is a number with room left above it.
pub open spec fn upgradeable(m: Map<Seq<char>, Seq<char>>, name: Seq<char>) -> bool {
    m.contains_key(name) && is_dec_seq(m[name]) && dec_val(m[name]) < usize::MAX as int
}

/// The store after a successful version bump.
pub open spec fn upgraded(m: Map<Seq<char>, Seq<char>>, name: Seq<char>) -> Map<
    Seq<char>,
    Seq<char>,
> {
    m.insert(name, dec_digits(dec_val(m[name]) + 1))
}

/// Bumps the stored version of a tree name by one, abandoning the old
/// physical tree.  Fails, changing nothing, when the name is unknown or
/// its stored version is not a number with room left above it.
pub fn upgrade_smt_tree_version<S: KVStore>(db: &mut S, smt_name: &str) -> (r: bool)
    ensures
        !upgradeable(old(db).view(), smt_name@) ==> r == false && final(db).view() == old(db).view(),
        upgradeable(old(db).view(), smt_name@) ==> r == true && (final(db).view() == upgraded(
            old(db).view(),
            smt_name@,
        ) || final(db).view() == old(db).view()),
{
    match db.find(smt_name) {
        None => false,
        Some(v) => {
            match parse_usize(v.as_str()) {
                None => false,
                Some(old_version) => {
                    if old_version == usize::MAX {
                        false
                    } else {
                        let new_version_str = usize_to_string(old_version + 1);
                        let _ = db.save(smt_name, new_version_str.as_str());
                        true
                    }
                },
            }
        },
    }
}

/// The path of the version store: the main store's path with the version
/// suffix.
pub fn get_version_db_path(db_path: &str) -> (r: String)
    ensures
        r@ == db_path@ + "/version"@,
{
    let mut r = String::new();
    r.append(db_path);
    r.append("/version");
    r
}

/// Appends a path to the held database path.
pub fn save_db_path(held: &mut String, db_path: &String)
    ensures
        final(held)@ == old(held)@ + db_path@,
{
    held.append(db_path.as_str());
}

/// Reads the held database path.
pub fn get_db_path(held: &String) -> (r: String)
    ensures
        r@ == held@,
{
    held.clone()
}

/// A tree name joined to its version: the name, an underscore, the
/// version digits.
pub open spec fn versioned_name(name: Seq<char>, ver: Seq<char>) -> Seq<char> {
    name + seq!['_'] + ver
}

/// Resolves a caller's tree name to its current versioned physical name.
/// A name never seen before is registered at version 0.
pub fn get_smt_tree_name<S: KVStore>(db: &mut S, smt_name: &str) -> (r: String)
    ensures
        old(db).view().contains_key(smt_name@) ==> r@ == versioned_name(
            smt_name@,
            old(db).view()[smt_name@],
        ) && final(db).view() == old(db).view(),
        !old(db).view().contains_key(smt_name@) ==> r@ == versioned_name(smt_name@, seq!['0'])
            && (final(db).view() == old(db).view().insert(smt_name@, seq!['0'])
            || final(db).view() == old(db).view()),
{
    proof {
        reveal_strlit("_");
        reveal_strlit("0");
        assert("_"@ =~= seq!['_']);
        assert("0"@ =~= seq!['0']);
    }
    match db.find(smt_name) {
        Some(v) => {
            let mut r = String::new();
            r.append(smt_name);
            r.append("_");
            r.append(v.as_str());
            proof {
                assert(r@ =~= versioned_name(smt_name@, v@));
            }
            r
        },
        None => {
            let _ = db.save(smt_name, "0");
            let mut r = String::new();
            r.append(smt_name);
            r.append("_");
            r.append("0");
            proof {
                assert(r@ =~= versioned_name(smt_name@, seq!['0']));
            }
            r
        },
    }
}

} // verus!
