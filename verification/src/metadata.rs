//! Per-package version metadata: a map from resource id to a 64-bit version
//! number, persisted as a JSON object in a sidecar file.

use vstd::prelude::*;
use crate::util::{push_char, str_eq};

verus! {

/// The index of the first entry with key `k`, or `-1` when there is none.
pub open spec fn meta_index_of(m: Seq<(Seq<char>, u64)>, k: Seq<char>) -> int
    decreases m.len(),
{
    if m.len() == 0 {
        -1
    } else if m[0].0 == k {
        0
    } else {
        let r = meta_index_of(m.drop_first(), k);
        if r < 0 {
            -1
        } else {
            r + 1
        }
    }
}

/// Whether the map holds an entry for key `k`.
pub open spec fn meta_has(m: Seq<(Seq<char>, u64)>, k: Seq<char>) -> bool {
    meta_index_of(m, k) >= 0
}

/// The version recorded for key `k`, if any.
pub open spec fn meta_lookup(m: Seq<(Seq<char>, u64)>, k: Seq<char>) -> Option<u64> {
    if meta_has(m, k) {
        Some(m[meta_index_of(m, k)].1)
    } else {
        None
    }
}

/// The map after recording version `v` for key `k`: an existing entry is
/// overwritten in place, a new key is appended at the end.
pub open spec fn meta_set(m: Seq<(Seq<char>, u64)>, k: Seq<char>, v: u64) -> Seq<
    (Seq<char>, u64),
> {
    if meta_has(m, k) {
        m.update(meta_index_of(m, k), (k, v))
    } else {
        m.push((k, v))
    }
}

/// No two entries share a key.
pub open spec fn meta_keys_distinct(m: Seq<(Seq<char>, u64)>) -> bool {
    forall|i: int, j: int| 0 <= i < j < m.len() ==> (#[trigger] m[i]).0 != (#[trigger] m[j]).0
}

/// `meta_index_of` finds exactly the first entry with the given key.
pub proof fn lemma_meta_index_of(m: Seq<(Seq<char>, u64)>, k: Seq<char>)
    ensures
        meta_index_of(m, k) == -1 ==> forall|j: int|
            0 <= j < m.len() ==> (#[trigger] m[j]).0 != k,
        meta_index_of(m, k) != -1 ==> {
            &&& 0 <= meta_index_of(m, k) < m.len()
            &&& m[meta_index_of(m, k)].0 == k
            &&& forall|j: int| 0 <= j < meta_index_of(m, k) ==> (#[trigger] m[j]).0 != k
        },
    decreases m.len(),
{
    if m.len() > 0 && m[0].0 != k {
        lemma_meta_index_of(m.drop_first(), k);
        assert(forall|j: int|
            1 <= j < m.len() ==> (#[trigger] m[j]).0 == m.drop_first()[j - 1].0);
    }
}

/// The first entry with the given key determines `meta_index_of`.
pub proof fn lemma_meta_index_at(m: Seq<(Seq<char>, u64)>, k: Seq<char>, i: int)
    requires
        0 <= i < m.len(),
        m[i].0 == k,
        forall|j: int| 0 <= j < i ==> (#[trigger] m[j]).0 != k,
    ensures
        meta_index_of(m, k) == i,
{
    lemma_meta_index_of(m, k);
    if meta_index_of(m, k) == -1 {
        assert(m[i].0 != k);
    }
}

/// A key that no entry holds makes `meta_index_of` come back empty.
pub proof fn lemma_meta_index_none(m: Seq<(Seq<char>, u64)>, k: Seq<char>)
    requires
        forall|j: int| 0 <= j < m.len() ==> (#[trigger] m[j]).0 != k,
    ensures
        meta_index_of(m, k) == -1,
{
    lemma_meta_index_of(m, k);
}

/// A map from resource id to recorded version number. Keys are unique.
#[derive(Debug, Clone)]
pub struct MetaMap {
    entries: Vec<(String, u64)>,
}

impl View for MetaMap {
    type V = Seq<(Seq<char>, u64)>;

    closed spec fn view(&self) -> Seq<(Seq<char>, u64)> {
        Seq::new(self.entries@.len(), |i: int| (self.entries@[i].0@, self.entries@[i].1))
    }
}

impl MetaMap {
    /// Key uniqueness, established by the constructor and kept by `set`.
    pub open spec fn wf(&self) -> bool {
        meta_keys_distinct(self@)
    }

    /// An empty map.
    pub fn new() -> (r: MetaMap)
        ensures
            r@ == Seq::<(Seq<char>, u64)>::empty(),
            r.wf(),
    {
        let r = MetaMap { entries: Vec::new() };
        proof {
            assert(r@ =~= Seq::<(Seq<char>, u64)>::empty());
        }
        r
    }

    /// The number of recorded ids.
    pub fn len(&self) -> (r: usize)
        ensures
            r == self@.len(),
    {
        self.entries.len()
    }

    /// The entry at position `i`, in insertion order.
    pub fn entry_at(&self, i: usize) -> (r: (&String, u64))
        requires
            i < self@.len(),
        ensures
            r.0@ == self@[i as int].0,
            r.1 == self@[i as int].1,
    {
        let e = &self.entries[i];
        (&e.0, e.1)
    }

    /// The version recorded for `id`, if any.
    pub fn get(&self, id: &str) -> (r: Option<u64>)
        ensures
            r == meta_lookup(self@, id@),
    {
        let n = self.entries.len();
        let mut i: usize = 0;
        while i < n
            invariant
                i <= n,
                n == self@.len(),
                forall|j: int| 0 <= j < i ==> (#[trigger] self@[j]).0 != id@,
            decreases n - i,
        {
            if str_eq(self.entries[i].0.as_str(), id) {
                let v = self.entries[i].1;
                proof {
                    lemma_meta_index_at(self@, id@, i as int);
                }
                return Some(v);
            }
            i += 1;
        }
        proof {
            lemma_meta_index_none(self@, id@);
        }
        None
    }

    /// Records version `version` for `id`, overwriting any earlier record.
    pub fn set(&mut self, id: &str, version: u64)
        ensures
            final(self)@ == meta_set(old(self)@, id@, version),
            old(self).wf() ==> final(self).wf(),
    {
        let n = self.entries.len();
        let mut i: usize = 0;
        while i < n
            invariant
                i <= n,
                n == self@.len(),
                self == old(self),
                forall|j: int| 0 <= j < i ==> (#[trigger] self@[j]).0 != id@,
            decreases n - i,
        {
            if str_eq(self.entries[i].0.as_str(), id) {
                proof {
                    lemma_meta_index_at(self@, id@, i as int);
                }
                self.entries[i] = (id.to_owned(), version);
                proof {
                    assert(final(self)@ =~= meta_set(old(self)@, id@, version));
                    if old(self).wf() {
                        assert(forall|p: int|
                            0 <= p < final(self)@.len()
                                ==> (#[trigger] final(self)@[p]).0 == old(self)@[p].0);
                        assert forall|p: int, q: int|
                            0 <= p < q < final(self)@.len() implies
                            (#[trigger] final(self)@[p]).0 != (#[trigger] final(self)@[q]).0 by {
                            assert(old(self)@[p].0 != old(self)@[q].0);
                        };
                        assert(final(self).wf());
                    }
                }
                return ;
            }
            i += 1;
        }
        proof {
            lemma_meta_index_none(self@, id@);
        }
        self.entries.push((id.to_owned(), version));
        proof {
            assert(final(self)@ =~= meta_set(old(self)@, id@, version));
            if old(self).wf() {
                assert(forall|p: int|
                    0 <= p < old(self)@.len()
                        ==> (#[trigger] final(self)@[p]).0 == old(self)@[p].0);
                assert(final(self).wf());
            }
        }
    }
}

/// JSON whitespace.
pub open spec fn is_ws(c: char) -> bool {
    c == ' ' || c == '\t' || c == '\n' || c == '\r'
}

/// An ASCII digit.
pub open spec fn is_digit(c: char) -> bool {
    '0' <= c && c <= '9'
}

/// The first position at or after `i` that does not hold whitespace.
pub open spec fn skip_ws(s: Seq<char>, i: int) -> int
    decreases s.len() - i,
{
    if 0 <= i < s.len() && is_ws(s[i]) {
        skip_ws(s, i + 1)
    } else {
        i
    }
}

/// The characters of a quoted string up to its closing quote, together with
/// the position just after that quote. Escapes are not part of the format:
/// a backslash makes the document malformed.
pub open spec fn parse_str_chars(s: Seq<char>, i: int) -> Option<(Seq<char>, int)>
    decreases s.len() - i,
{
    if i < 0 || i >= s.len() {
        None
    } else if s[i] == '"' {
        Some((Seq::empty(), i + 1))
    } else if s[i] == '\\' {
        None
    } else {
        match parse_str_chars(s, i + 1) {
            Some((t, j)) => Some((seq![s[i]] + t, j)),
            None => None,
        }
    }
}

/// A quoted string starting at `i`.
pub open spec fn parse_string(s: Seq<char>, i: int) -> Option<(Seq<char>, int)> {
    if 0 <= i < s.len() && s[i] == '"' {
        parse_str_chars(s, i + 1)
    } else {
        None
    }
}

/// A run of digits accumulated onto `acc`; a value beyond the 64-bit range
/// makes the document malformed.
pub open spec fn parse_digits(s: Seq<char>, i: int, acc: u64) -> Option<(u64, int)>
    decreases s.len() - i,
{
    if 0 <= i < s.len() && is_digit(s[i]) {
        let v = acc * 10 + (s[i] as int - 48);
        if v > u64::MAX {
            None
        } else {
            parse_digits(s, i + 1, v as u64)
        }
    } else {
        Some((acc, i))
    }
}

/// An unsigned decimal number starting at `i`.
pub open spec fn parse_number(s: Seq<char>, i: int) -> Option<(u64, int)> {
    if 0 <= i < s.len() && is_digit(s[i]) {
        parse_digits(s, i, 0)
    } else {
        None
    }
}

/// The members of the object from the first key onward, accumulated onto
/// `m`, together with the position just after the closing brace. The fuel
/// only bounds the recursion; any fuel above the remaining length gives the
/// same answer.
pub open spec fn parse_pairs(
    s: Seq<char>,
    i: int,
    m: Seq<(Seq<char>, u64)>,
    fuel: nat,
) -> Option<(Seq<(Seq<char>, u64)>, int)>
    decreases fuel,
{
    if fuel == 0 {
        None
    } else {
        match parse_string(s, i) {
            None => None,
            Some((key, i1)) => {
                let i2 = skip_ws(s, i1);
                if i2 < s.len() && s[i2] == ':' {
                    let i3 = skip_ws(s, i2 + 1);
                    match parse_number(s, i3) {
                        None => None,
                        Some((v, i4)) => {
                            let m2 = meta_set(m, key, v);
                            let i5 = skip_ws(s, i4);
                            if i5 < s.len() && s[i5] == ',' {
                                parse_pairs(s, skip_ws(s, i5 + 1), m2, (fuel - 1) as nat)
                            } else if i5 < s.len() && s[i5] == '}' {
                                Some((m2, i5 + 1))
                            } else {
                                None
                            }
                        },
                    }
                } else {
                    None
                }
            },
        }
    }
}

/// A parse outcome is accepted only when nothing but whitespace follows.
pub open spec fn finish_parse(s: Seq<char>, r: Option<(Seq<(Seq<char>, u64)>, int)>) -> Option<
    Seq<(Seq<char>, u64)>,
> {
    match r {
        Some((m, k)) => if skip_ws(s, k) == s.len() {
            Some(m)
        } else {
            None
        },
        None => None,
    }
}

/// The whole sidecar document: a JSON object whose values are unsigned
/// 64-bit numbers. `None` means the document is malformed.
pub open spec fn parse_meta(s: Seq<char>) -> Option<Seq<(Seq<char>, u64)>> {
    let i = skip_ws(s, 0);
    if i < s.len() && s[i] == '{' {
        let j = skip_ws(s, i + 1);
        if j < s.len() && s[j] == '}' {
            if skip_ws(s, j + 1) == s.len() {
                Some(Seq::empty())
            } else {
                None
            }
        } else {
            finish_parse(s, parse_pairs(s, j, Seq::empty(), (s.len() + 1) as nat))
        }
    } else {
        None
    }
}

proof fn lemma_skip_ws(s: Seq<char>, i: int)
    requires
        0 <= i <= s.len(),
    ensures
        i <= skip_ws(s, i) <= s.len(),
        skip_ws(s, i) == s.len() || !is_ws(s[skip_ws(s, i)]),
    decreases s.len() - i,
{
    if i < s.len() && is_ws(s[i]) {
        lemma_skip_ws(s, i + 1);
    }
}

proof fn lemma_parse_str_chars_bounds(s: Seq<char>, i: int)
    requires
        0 <= i <= s.len(),
    ensures
        parse_str_chars(s, i) matches Some(r) ==> i < r.1 <= s.len(),
    decreases s.len() - i,
{
    if i < s.len() && s[i] != '"' && s[i] != '\\' {
        lemma_parse_str_chars_bounds(s, i + 1);
    }
}

proof fn lemma_parse_digits_bounds(s: Seq<char>, i: int, acc: u64)
    requires
        0 <= i <= s.len(),
    ensures
        parse_digits(s, i, acc) matches Some(r) ==> i <= r.1 <= s.len(),
    decreases s.len() - i,
{
    if 0 <= i < s.len() && is_digit(s[i]) {
        let v = acc * 10 + (s[i] as int - 48);
        if v <= u64::MAX {
            lemma_parse_digits_bounds(s, i + 1, v as u64);
        }
    }
}

proof fn lemma_parse_str_chars_found(s: Seq<char>, p: int, q: int)
    requires
        0 <= p <= q < s.len(),
        s[q] == '"',
        forall|k: int| p <= k < q ==> s[k] != '"' && s[k] != '\\',
    ensures
        parse_str_chars(s, p) == Some((s.subrange(p, q), q + 1)),
    decreases q - p,
{
    if p == q {
        assert(s.subrange(p, q) =~= Seq::<char>::empty());
    } else {
        lemma_parse_str_chars_found(s, p + 1, q);
        assert(seq![s[p]] + s.subrange(p + 1, q) =~= s.subrange(p, q));
    }
}

proof fn lemma_parse_str_chars_none(s: Seq<char>, p: int, q: int)
    requires
        0 <= p <= q <= s.len(),
        forall|k: int| p <= k < q ==> s[k] != '"' && s[k] != '\\',
        q == s.len() || s[q] == '\\',
    ensures
        parse_str_chars(s, p) is None,
    decreases q - p,
{
    if p < q {
        lemma_parse_str_chars_none(s, p + 1, q);
    }
}

/// Above the remaining length, the fuel does not change the answer.
proof fn lemma_parse_pairs_fuel(s: Seq<char>, i: int, m: Seq<(Seq<char>, u64)>, f1: nat, f2: nat)
    requires
        0 <= i <= s.len(),
        f1 > s.len() - i,
        f2 > s.len() - i,
    ensures
        parse_pairs(s, i, m, f1) == parse_pairs(s, i, m, f2),
    decreases f1,
{
    match parse_string(s, i) {
        None => {},
        Some((key, i1)) => {
            lemma_parse_str_chars_bounds(s, i + 1);
            assert(i + 1 < i1 <= s.len());
            let i2 = skip_ws(s, i1);
            lemma_skip_ws(s, i1);
            if i2 < s.len() && s[i2] == ':' {
                let i3 = skip_ws(s, i2 + 1);
                lemma_skip_ws(s, i2 + 1);
                match parse_number(s, i3) {
                    None => {},
                    Some((v, i4)) => {
                        lemma_parse_digits_bounds(s, i3, 0);
                        let m2 = meta_set(m, key, v);
                        let i5 = skip_ws(s, i4);
                        lemma_skip_ws(s, i4);
                        if i5 < s.len() && s[i5] == ',' {
                            let i6 = skip_ws(s, i5 + 1);
                            lemma_skip_ws(s, i5 + 1);
                            assert(i6 > i);
                            lemma_parse_pairs_fuel(s, i6, m2, (f1 - 1) as nat, (f2 - 1) as nat);
                        }
                    },
                }
            }
        },
    }
}

fn skip_ws_at(s: &str, i: usize) -> (r: usize)
    requires
        i <= s@.len(),
    ensures
        r == skip_ws(s@, i as int),
        i <= r <= s@.len(),
{
    let n = s.unicode_len();
    let mut j = i;
    loop
        invariant
            i <= j <= n,
            n == s@.len(),
            skip_ws(s@, i as int) == skip_ws(s@, j as int),
        decreases n - j,
    {
        if j >= n {
            return j;
        }
        let c = s.get_char(j);
        if !(c == ' ' || c == '\t' || c == '\n' || c == '\r') {
            return j;
        }
        j += 1;
    }
}

fn parse_string_at(s: &str, i: usize) -> (r: Option<(String, usize)>)
    requires
        i <= s@.len(),
    ensures
        match r {
            Some(p) => {
                &&& parse_string(s@, i as int) == Some((p.0@, p.1 as int))
                &&& i < p.1 <= s@.len()
            },
            None => parse_string(s@, i as int) is None,
        },
{
    let n = s.unicode_len();
    if i >= n {
        return None;
    }
    if s.get_char(i) != '"' {
        return None;
    }
    let mut q = i + 1;
    loop
        invariant
            i + 1 <= q <= n,
            n == s@.len(),
            s@[i as int] == '"',
            forall|k: int| i + 1 <= k < q ==> s@[k] != '"' && s@[k] != '\\',
        decreases n - q,
    {
        if q >= n {
            proof {
                lemma_parse_str_chars_none(s@, i + 1, n as int);
            }
            return None;
        }
        let c = s.get_char(q);
        if c == '"' {
            let t = s.substring_char(i + 1, q).to_owned();
            proof {
                lemma_parse_str_chars_found(s@, i + 1, q as int);
                assert(t@ == s@.subrange(i + 1, q as int));
                assert(parse_string(s@, i as int) == parse_str_chars(s@, i + 1));
                assert(parse_str_chars(s@, i + 1) == Some((s@.subrange(i + 1, q as int), q + 1)));
            }
            return Some((t, q + 1));
        }
        if c == '\\' {
            proof {
                lemma_parse_str_chars_none(s@, i + 1, q as int);
            }
            return None;
        }
        q += 1;
    }
}

fn parse_number_at(s: &str, i: usize) -> (r: Option<(u64, usize)>)
    requires
        i <= s@.len(),
    ensures
        match r {
            Some(p) => {
                &&& parse_number(s@, i as int) == Some((p.0, p.1 as int))
                &&& i < p.1 <= s@.len()
            },
            None => parse_number(s@, i as int) is None,
        },
{
    let n = s.unicode_len();
    if i >= n {
        return None;
    }
    let c0 = s.get_char(i);
    if !('0' <= c0 && c0 <= '9') {
        return None;
    }
    let mut acc: u64 = 0;
    let mut j = i;
    loop
        invariant
            i <= j <= n,
            n == s@.len(),
            j > i || acc == 0,
            parse_number(s@, i as int) == parse_digits(s@, j as int, acc),
            is_digit(s@[i as int]),
        decreases n - j,
    {
        if j >= n {
            return Some((acc, j));
        }
        let c = s.get_char(j);
        if !('0' <= c && c <= '9') {
            return Some((acc, j));
        }
        let d = (c as u8) - 48;
        let acc2 = match acc.checked_mul(10) {
            Some(t) => match t.checked_add(d as u64) {
                Some(v) => v,
                None => {
                    return None;
                },
            },
            None => {
                proof {
                    assert(acc * 10 + (s@[j as int] as int - 48) > u64::MAX);
                }
                return None;
            },
        };
        acc = acc2;
        j += 1;
        proof {
            assert(j > i);
        }
    }
}

/// Reads a sidecar document. `None` means the document is malformed; the
/// result otherwise holds exactly the recorded pairs, later duplicates of a
/// key overwriting earlier ones.
pub fn parse_metadata(s: &str) -> (r: Option<MetaMap>)
    ensures
        match r {
            Some(m) => {
                &&& parse_meta(s@) == Some(m@)
                &&& m.wf()
            },
            None => parse_meta(s@) is None,
        },
{
    let n = s.unicode_len();
    let first = skip_ws_at(s, 0);
    if first >= n {
        return None;
    }
    if s.get_char(first) != '{' {
        return None;
    }
    let start = skip_ws_at(s, first + 1);
    if start < n && s.get_char(start) == '}' {
        let after = skip_ws_at(s, start + 1);
        if after == n {
            return Some(MetaMap::new());
        } else {
            return None;
        }
    }
    let mut m = MetaMap::new();
    let mut i = start;
    proof {
        lemma_parse_pairs_fuel(
            s@,
            start as int,
            Seq::empty(),
            (s@.len() + 1) as nat,
            (s@.len() - start + 1) as nat,
        );
    }
    loop
        invariant
            i <= n,
            n == s@.len(),
            m.wf(),
            parse_meta(s@) == finish_parse(
                s@,
                parse_pairs(s@, i as int, m@, (s@.len() - i + 1) as nat),
            ),
        decreases n - i,
    {
        let ghost fuel = (s@.len() - i + 1) as nat;
        match parse_string_at(s, i) {
            None => {
                return None;
            },
            Some((key, i1)) => {
                let i2 = skip_ws_at(s, i1);
                if !(i2 < n) {
                    return None;
                }
                if s.get_char(i2) != ':' {
                    return None;
                }
                let i3 = skip_ws_at(s, i2 + 1);
                match parse_number_at(s, i3) {
                    None => {
                        return None;
                    },
                    Some((v, i4)) => {
                        let ghost m_before = m@;
                        m.set(key.as_str(), v);
                        let i5 = skip_ws_at(s, i4);
                        if i5 < n && s.get_char(i5) == ',' {
                            let i6 = skip_ws_at(s, i5 + 1);
                            proof {
                                assert(parse_pairs(s@, i as int, m_before, fuel) == parse_pairs(
                                    s@,
                                    i6 as int,
                                    m@,
                                    (fuel - 1) as nat,
                                ));
                                lemma_parse_pairs_fuel(
                                    s@,
                                    i6 as int,
                                    m@,
                                    (fuel - 1) as nat,
                                    (s@.len() - i6 + 1) as nat,
                                );
                            }
                            i = i6;
                        } else if i5 < n && s.get_char(i5) == '}' {
                            let after = skip_ws_at(s, i5 + 1);
                            if after == n {
                                return Some(m);
                            } else {
                                return None;
                            }
                        } else {
                            return None;
                        }
                    },
                }
            },
        }
    }
}

/// The decimal rendering of a nonnegative number.
pub open spec fn dec_str(n: int) -> Seq<char>
    recommends
        n >= 0,
    decreases n,
{
    if n < 10 {
        seq![((48 + n) as char)]
    } else {
        dec_str(n / 10).push(((48 + n % 10) as char))
    }
}

/// The rendering of one member: a quoted key, a colon, and the version.
pub open spec fn pair_json(k: Seq<char>, v: u64) -> Seq<char> {
    seq!['"'] + k + seq!['"', ':'] + dec_str(v as int)
}

/// The members of a map, joined with commas, in map order.
pub open spec fn meta_json_body(m: Seq<(Seq<char>, u64)>) -> Seq<char>
    decreases m.len(),
{
    if m.len() == 0 {
        Seq::empty()
    } else if m.len() == 1 {
        pair_json(m[0].0, m[0].1)
    } else {
        meta_json_body(m.drop_last()) + seq![','] + pair_json(m.last().0, m.last().1)
    }
}

/// The canonical sidecar rendering of a map: a braced object, compact.
pub open spec fn meta_json(m: Seq<(Seq<char>, u64)>) -> Seq<char> {
    seq!['{'] + meta_json_body(m) + seq!['}']
}

/// What a run of digits accumulates to, processed left to right starting
/// from `acc`, exactly as the number parser does.
pub open spec fn accum_digits(acc: int, d: Seq<char>) -> int
    decreases d.len(),
{
    if d.len() == 0 {
        acc
    } else {
        accum_digits(acc * 10 + (d[0] as int - 48), d.drop_first())
    }
}

proof fn lemma_accum_digits_lower(acc: int, d: Seq<char>)
    requires
        acc >= 0,
        forall|i: int| 0 <= i < d.len() ==> is_digit(#[trigger] d[i]),
    ensures
        accum_digits(acc, d) >= acc,
    decreases d.len(),
{
    if d.len() > 0 {
        assert(is_digit(d[0]));
        lemma_accum_digits_lower(acc * 10 + (d[0] as int - 48), d.drop_first());
    }
}

proof fn lemma_accum_digits_snoc(acc: int, d: Seq<char>, c: char)
    ensures
        accum_digits(acc, d.push(c)) == accum_digits(acc, d) * 10 + (c as int - 48),
    decreases d.len(),
{
    if d.len() == 0 {
        assert(d.push(c)[0] == c);
        assert(d.push(c).drop_first() =~= Seq::<char>::empty());
        assert(accum_digits(acc, d.push(c)) == accum_digits(
            acc * 10 + (c as int - 48),
            Seq::empty(),
        ));
    } else {
        assert(d.push(c)[0] == d[0]);
        assert(d.push(c).drop_first() =~= d.drop_first().push(c));
        lemma_accum_digits_snoc(acc * 10 + (d[0] as int - 48), d.drop_first(), c);
    }
}

proof fn lemma_dec_str_digits(n: int)
    requires
        n >= 0,
    ensures
        dec_str(n).len() >= 1,
        forall|i: int| 0 <= i < dec_str(n).len() ==> is_digit(#[trigger] dec_str(n)[i]),
    decreases n,
{
    if n < 10 {
        assert(dec_str(n)[0] == ((48 + n) as char));
        assert(is_digit(((48 + n) as char)));
    } else {
        lemma_dec_str_digits(n / 10);
        let prev = dec_str(n / 10);
        let c = ((48 + n % 10) as char);
        assert(is_digit(c));
        assert(forall|i: int|
            0 <= i < prev.len() ==> #[trigger] prev.push(c)[i] == prev[i]);
        assert(prev.push(c)[prev.len() as int] == c);
    }
}

proof fn lemma_accum_dec_str(n: int)
    requires
        0 <= n <= u64::MAX,
    ensures
        accum_digits(0, dec_str(n)) == n,
    decreases n,
{
    if n < 10 {
        let c = ((48 + n) as char);
        assert(c as int == 48 + n);
        assert(dec_str(n) =~= seq![c]);
        assert(dec_str(n).drop_first() =~= Seq::<char>::empty());
        assert(accum_digits(0, dec_str(n)) == accum_digits(0 * 10 + (c as int - 48), Seq::empty()));
    } else {
        lemma_accum_dec_str(n / 10);
        lemma_accum_digits_snoc(0, dec_str(n / 10), ((48 + n % 10) as char));
        assert(((48 + n % 10) as char) as int == 48 + n % 10);
        assert(accum_digits(0, dec_str(n)) == (n / 10) * 10 + n % 10);
    }
}

proof fn lemma_parse_digits_block(s: Seq<char>, i: int, j: int, acc: u64)
    requires
        0 <= i <= j <= s.len(),
        forall|k: int| i <= k < j ==> is_digit(#[trigger] s[k]),
        j == s.len() || !is_digit(s[j]),
        0 <= accum_digits(acc as int, s.subrange(i, j)) <= u64::MAX,
    ensures
        parse_digits(s, i, acc) == Some((accum_digits(acc as int, s.subrange(i, j)) as u64, j)),
    decreases j - i,
{
    let d = s.subrange(i, j);
    if i == j {
        assert(d =~= Seq::<char>::empty());
    } else {
        assert(d[0] == s[i]);
        assert(is_digit(s[i]));
        let v1 = acc as int * 10 + (s[i] as int - 48);
        assert(d.drop_first() =~= s.subrange(i + 1, j));
        lemma_accum_digits_lower(v1, s.subrange(i + 1, j));
        assert(accum_digits(v1, s.subrange(i + 1, j)) == accum_digits(acc as int, d));
        assert(v1 <= u64::MAX);
        lemma_parse_digits_block(s, i + 1, j, v1 as u64);
    }
}

/// A key the rendering can quote verbatim: it holds no quote and no
/// backslash. Normalized resource ids always qualify.
pub open spec fn json_safe_key(k: Seq<char>) -> bool {
    forall|i: int| 0 <= i < k.len() ==> #[trigger] k[i] != '"' && k[i] != '\\'
}

/// A normalized identifier is always a quotable key: normalization keeps
/// only lowercase letters, digits and `:`, never a quote or a backslash.
pub proof fn lemma_simplified_key_is_safe(s: Seq<char>)
    requires
        crate::util::simplified(s),
    ensures
        json_safe_key(s),
{
    assert forall|i: int| 0 <= i < s.len() implies #[trigger] s[i] != '"' && s[i] != '\\' by {
        assert(crate::util::keeps_char(s[i]));
    };
}

proof fn lemma_parse_string_of_key(s: Seq<char>, i: int, k: Seq<char>)
    requires
        0 <= i,
        i + k.len() + 2 <= s.len(),
        s.subrange(i, i + k.len() + 2) == seq!['"'] + k + seq!['"'],
        json_safe_key(k),
    ensures
        parse_string(s, i) == Some((k, i + k.len() + 2)),
{
    let quoted = seq!['"'] + k + seq!['"'];
    let q = i + 1 + k.len();
    assert forall|t: int| 0 <= t < quoted.len() implies s[i + t] == quoted[t] by {
        assert(s.subrange(i, i + k.len() + 2)[t] == s[i + t]);
    };
    assert(s[i] == '"') by {
        assert(s[i + 0] == quoted[0]);
    };
    assert(s[q] == '"') by {
        assert(s[i + (k.len() as int + 1)] == quoted[k.len() as int + 1]);
        assert(q == i + (k.len() as int + 1));
    };
    assert forall|p: int| i + 1 <= p < q implies s[p] == k[p - i - 1] by {
        let t = p - i;
        assert(s[i + t] == quoted[t]);
        assert(quoted[t] == k[t - 1]);
        assert(p == i + t);
    };
    lemma_parse_str_chars_found(s, i + 1, q);
    assert(s.subrange(i + 1, q) =~= k);
}

proof fn lemma_body_first(m: Seq<(Seq<char>, u64)>)
    requires
        m.len() >= 1,
    ensures
        meta_json_body(m) == pair_json(m[0].0, m[0].1) + (if m.len() == 1 {
            Seq::<char>::empty()
        } else {
            seq![','] + meta_json_body(m.drop_first())
        }),
    decreases m.len(),
{
    if m.len() == 1 {
        assert(pair_json(m[0].0, m[0].1) + Seq::<char>::empty() =~= pair_json(m[0].0, m[0].1));
    } else if m.len() == 2 {
        assert(m.drop_last() =~= seq![m[0]]);
        assert(m.drop_first() =~= seq![m[1]]);
        assert(meta_json_body(seq![m[0]]) == pair_json(m[0].0, m[0].1));
        assert(meta_json_body(seq![m[1]]) == pair_json(m[1].0, m[1].1));
        assert(m.last() == m[1]);
        assert(meta_json_body(m.drop_last()) + seq![','] + pair_json(m.last().0, m.last().1)
            =~= pair_json(m[0].0, m[0].1) + (seq![','] + meta_json_body(m.drop_first())));
    } else {
        lemma_body_first(m.drop_last());
        assert(m.drop_last()[0] == m[0]);
        assert(m.drop_last().drop_first() =~= m.drop_first().drop_last());
        assert(m.drop_first().last() == m.last());
        // the tail of the map is long enough to unfold its own rendering
        assert(m.drop_first().len() >= 2);
        assert(meta_json_body(m.drop_first()) == meta_json_body(m.drop_first().drop_last())
            + seq![','] + pair_json(m.drop_first().last().0, m.drop_first().last().1));
        assert(meta_json_body(m) =~= pair_json(m[0].0, m[0].1) + (seq![','] + meta_json_body(
            m.drop_first(),
        )));
    }
}

proof fn lemma_parse_pairs_of_body(
    s: Seq<char>,
    i: int,
    acc: Seq<(Seq<char>, u64)>,
    rest: Seq<(Seq<char>, u64)>,
    fuel: nat,
)
    requires
        0 <= i <= s.len(),
        rest.len() >= 1,
        s.subrange(i, s.len() as int) == meta_json_body(rest) + seq!['}'],
        forall|t: int| 0 <= t < rest.len() ==> json_safe_key((#[trigger] rest[t]).0),
        meta_keys_distinct(acc + rest),
        fuel > s.len() - i,
    ensures
        parse_pairs(s, i, acc, fuel) == Some((acc + rest, s.len() as int)),
    decreases rest.len(),
{
    let k = rest[0].0;
    let v = rest[0].1;
    lemma_body_first(rest);
    lemma_dec_str_digits(v as int);
    lemma_accum_dec_str(v as int);
    let pj = pair_json(k, v);
    let dv = dec_str(v as int);
    let suffix = s.subrange(i, s.len() as int);
    assert forall|t: int| 0 <= t < suffix.len() implies s[i + t] == suffix[t] by {
        assert(s.subrange(i, s.len() as int)[t] == s[i + t]);
    };
    assert(suffix.len() == s.len() - i);
    let i1 = i + k.len() + 2;
    let i3 = i1 + 1;
    let i4 = i3 + dv.len();
    assert(pj.len() == k.len() + 3 + dv.len());
    assert(i4 == i + pj.len());
    assert(i4 < s.len());

    // the quoted key
    assert forall|t: int| 0 <= t < k.len() + 2 implies s.subrange(i, i1)[t] == (seq!['"'] + k
        + seq!['"'])[t] by {
        assert(s.subrange(i, i1)[t] == s[i + t]);
        assert(s[i + t] == suffix[t]);
        assert(suffix[t] == pj[t]);
    };
    assert(s.subrange(i, i1) =~= seq!['"'] + k + seq!['"']);
    lemma_parse_string_of_key(s, i, k);

    // the colon, directly after the key
    assert(s[i1] == ':') by {
        assert(s[i + (k.len() as int + 2)] == suffix[k.len() as int + 2]);
        assert(suffix[k.len() as int + 2] == pj[k.len() as int + 2]);
        assert(pj[k.len() as int + 2] == ':');
        assert(i1 == i + (k.len() as int + 2));
    };
    assert(!is_ws(':'));
    assert(skip_ws(s, i1) == i1);

    // the version's digits, directly after the colon
    assert forall|p: int| i3 <= p < i4 implies s[p] == dv[p - i3] by {
        let t = p - i;
        assert(s[i + t] == suffix[t]);
        assert(suffix[t] == pj[t]);
        assert(pj[t] == dv[t - (k.len() as int + 3)]);
        assert(p == i + t);
    };
    assert forall|p: int| i3 <= p < i4 implies is_digit(#[trigger] s[p]) by {
        assert(s[p] == dv[p - i3]);
    };
    assert forall|t: int| 0 <= t < dv.len() implies s.subrange(i3, i4)[t] == dv[t] by {
        assert(s.subrange(i3, i4)[t] == s[i3 + t]);
        assert(s[i3 + t] == dv[t]);
    };
    assert(s.subrange(i3, i4) =~= dv);
    assert(is_digit(s[i3]));
    assert(!is_ws(s[i3]));
    assert(skip_ws(s, i3) == i3);

    // what follows the digits: a comma before the next member, or the
    // closing brace
    if rest.len() == 1 {
        assert(meta_json_body(rest) =~= pj);
        assert(suffix =~= pj + seq!['}']);
        assert(s.len() == i4 + 1);
        assert(s[i4] == '}') by {
            assert(s[i + pj.len() as int] == suffix[pj.len() as int]);
            assert(suffix[pj.len() as int] == '}');
            assert(i4 == i + pj.len() as int);
        };
        assert(!is_digit('}'));
        lemma_parse_digits_block(s, i3, i4, 0);
        assert(parse_number(s, i3) == Some((v, i4)));
        assert(!is_ws('}'));
        assert(skip_ws(s, i4) == i4);
        // a key of the remainder never collides with one already taken
        assert(forall|j: int| 0 <= j < acc.len() ==> (#[trigger] acc[j]).0 == (acc + rest)[j].0);
        assert(rest[0].0 == (acc + rest)[acc.len() as int].0);
        assert(forall|j: int| 0 <= j < acc.len() ==> (#[trigger] acc[j]).0 != k);
        lemma_meta_index_none(acc, k);
        assert(meta_set(acc, k, v) == acc.push((k, v)));
        assert(acc.push((k, v)) =~= acc + rest);
    } else {
        let rest2 = rest.drop_first();
        let body2 = meta_json_body(rest2);
        assert(suffix =~= pj + (seq![','] + body2) + seq!['}']);
        assert(s.len() == i4 + 2 + body2.len());
        assert(s[i4] == ',') by {
            assert(s[i + pj.len() as int] == suffix[pj.len() as int]);
            assert(suffix[pj.len() as int] == ',');
            assert(i4 == i + pj.len() as int);
        };
        assert(!is_digit(','));
        lemma_parse_digits_block(s, i3, i4, 0);
        assert(parse_number(s, i3) == Some((v, i4)));
        assert(!is_ws(','));
        assert(skip_ws(s, i4) == i4);
        // the next member starts with its opening quote, so no whitespace
        // is skipped
        lemma_body_first(rest2);
        assert(body2[0] == pair_json(rest2[0].0, rest2[0].1)[0]);
        assert(body2[0] == '"');
        assert(s[i4 + 1] == '"') by {
            assert(s[i + (pj.len() as int + 1)] == suffix[pj.len() as int + 1]);
            assert(suffix[pj.len() as int + 1] == body2[0]);
            assert(i4 + 1 == i + (pj.len() as int + 1));
        };
        assert(!is_ws('"'));
        assert(skip_ws(s, i4 + 1) == i4 + 1);

        assert(forall|j: int| 0 <= j < acc.len() ==> (#[trigger] acc[j]).0 == (acc + rest)[j].0);
        assert(rest[0].0 == (acc + rest)[acc.len() as int].0);
        assert(forall|j: int| 0 <= j < acc.len() ==> (#[trigger] acc[j]).0 != k);
        lemma_meta_index_none(acc, k);
        assert(meta_set(acc, k, v) == acc.push((k, v)));

        let acc2 = acc.push((k, v));
        assert(acc2 + rest2 =~= acc + rest);
        assert forall|t: int| 0 <= t < body2.len() + 1 implies s.subrange(i4 + 1, s.len() as int)[t]
            == (body2 + seq!['}'])[t] by {
            assert(s.subrange(i4 + 1, s.len() as int)[t] == s[(i4 + 1) + t]);
            assert(s[i + (pj.len() as int + 1 + t)] == suffix[pj.len() as int + 1 + t]);
            assert((i4 + 1) + t == i + (pj.len() as int + 1 + t));
            assert(suffix[pj.len() as int + 1 + t] == (body2 + seq!['}'])[t]);
        };
        assert(s.subrange(i4 + 1, s.len() as int) =~= meta_json_body(rest2) + seq!['}']);
        lemma_parse_pairs_of_body(s, i4 + 1, acc2, rest2, (fuel - 1) as nat);
        assert(parse_pairs(s, i4 + 1, acc2, (fuel - 1) as nat) == Some(
            (acc + rest, s.len() as int),
        ));
    }
}

/// Writing a map as its sidecar rendering and reading that rendering back
/// yields exactly the same map, for every map whose keys are unique and
/// quotable.
pub proof fn lemma_metadata_round_trip(m: Seq<(Seq<char>, u64)>)
    requires
        meta_keys_distinct(m),
        forall|t: int| 0 <= t < m.len() ==> json_safe_key((#[trigger] m[t]).0),
    ensures
        parse_meta(meta_json(m)) == Some(m),
{
    let s = meta_json(m);
    assert(s[0] == '{');
    assert(!is_ws('{'));
    assert(skip_ws(s, 0) == 0);
    if m.len() == 0 {
        assert(s =~= seq!['{', '}']);
        assert(s[1] == '}');
        assert(!is_ws('}'));
        assert(skip_ws(s, 1) == 1);
        assert(skip_ws(s, 2) == 2);
        assert(m =~= Seq::<(Seq<char>, u64)>::empty());
    } else {
        lemma_body_first(m);
        assert(meta_json_body(m)[0] == pair_json(m[0].0, m[0].1)[0]);
        assert(s[1] == meta_json_body(m)[0]);
        assert(s[1] == '"');
        assert(!is_ws('"'));
        assert(skip_ws(s, 1) == 1);
        assert(s[1] != '}');
        assert(s.subrange(1, s.len() as int) =~= meta_json_body(m) + seq!['}']);
        assert(Seq::<(Seq<char>, u64)>::empty() + m =~= m);
        lemma_parse_pairs_of_body(s, 1, Seq::empty(), m, (s.len() + 1) as nat);
        assert(parse_pairs(s, 1, Seq::empty(), (s.len() + 1) as nat) == Some(
            (m, s.len() as int),
        ));
        assert(skip_ws(s, s.len() as int) == s.len());
    }
}

/// Renders a version as decimal digits.
pub fn u64_to_string(v: u64) -> (r: String)
    ensures
        r@ == dec_str(v as int),
    decreases v,
{
    if v < 10 {
        let mut s = String::new();
        push_char(&mut s, ((48u8 + (v as u8)) as char));
        proof {
            assert(s@ =~= dec_str(v as int));
        }
        s
    } else {
        let mut s = u64_to_string(v / 10);
        push_char(&mut s, ((48u8 + ((v % 10) as u8)) as char));
        s
    }
}

/// Writes a map in its canonical sidecar rendering.
pub fn serialize_metadata(m: &MetaMap) -> (r: String)
    ensures
        r@ == meta_json(m@),
{
    let mut out = String::new();
    push_char(&mut out, '{');
    let n = m.len();
    let mut i: usize = 0;
    while i < n
        invariant
            i <= n,
            n == m@.len(),
            out@ == seq!['{'] + meta_json_body(m@.take(i as int)),
        decreases n - i,
    {
        if i > 0 {
            push_char(&mut out, ',');
        }
        push_char(&mut out, '"');
        let (k, v) = m.entry_at(i);
        out.append(k.as_str());
        push_char(&mut out, '"');
        push_char(&mut out, ':');
        let num = u64_to_string(v);
        out.append(num.as_str());
        proof {
            assert(m@.take(i + 1).drop_last() =~= m@.take(i as int));
            assert(m@.take(i + 1).last() == m@[i as int]);
            assert(out@ =~= seq!['{'] + meta_json_body(m@.take(i + 1)));
        }
        i += 1;
    }
    push_char(&mut out, '}');
    proof {
        assert(m@.take(n as int) =~= m@);
        assert(out@ =~= meta_json(m@));
    }
    out
}

} // verus!
