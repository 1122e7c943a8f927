//! String normalization and the content hash used as a version identifier.

use vstd::prelude::*;

verus! {

/// Characters that normalization keeps unchanged: lowercase ASCII letters,
/// ASCII digits, and `:`, which separates namespaces inside an identifier.
pub open spec fn keeps_char(c: char) -> bool {
    ('a' <= c && c <= 'z') || ('0' <= c && c <= '9') || c == ':'
}

/// An uppercase ASCII letter.
pub open spec fn is_upper(c: char) -> bool {
    'A' <= c && c <= 'Z'
}

/// The lowercase counterpart of an uppercase ASCII letter.
pub open spec fn lower_char(c: char) -> char {
    (((c as u8) + 32) as char)
}

/// What normalization makes of a single character: kept characters stay,
/// uppercase letters are lowered, everything else is dropped.
pub open spec fn simplify_char(c: char) -> Seq<char> {
    if keeps_char(c) {
        seq![c]
    } else if is_upper(c) {
        seq![lower_char(c)]
    } else {
        Seq::empty()
    }
}

/// Normalization of a whole character sequence.
pub open spec fn simplify_chars(s: Seq<char>) -> Seq<char>
    decreases s.len(),
{
    if s.len() == 0 {
        Seq::empty()
    } else {
        simplify_char(s[0]) + simplify_chars(s.drop_first())
    }
}

/// A sequence that consists only of kept characters, i.e. one that
/// normalization maps to itself.
pub open spec fn simplified(s: Seq<char>) -> bool {
    forall|i: int| 0 <= i < s.len() ==> keeps_char(#[trigger] s[i])
}

/// ASCII-lowercasing of a character sequence.
pub open spec fn lower_chars(s: Seq<char>) -> Seq<char> {
    s.map_values(|c: char| if is_upper(c) { lower_char(c) } else { c })
}

/// Relies on String::push: appends one character to the string.
#[verifier::external_body]
pub(crate) fn push_char(s: &mut String, c: char)
    ensures
        final(s)@ == old(s)@.push(c),
{
    s.push(c);
}

/// Normalizes an identifier: keeps lowercase letters, digits and `:`,
/// lowercases uppercase letters, and drops every other character.
pub fn simplify_str(string: &str) -> (res: String)
    ensures
        res@ == simplify_chars(string@),
{
    let n = string.unicode_len();
    let mut res = String::new();
    let mut i: usize = 0;
    while i < n
        invariant
            i <= n,
            n == string@.len(),
            res@ == simplify_chars(string@.take(i as int)),
        decreases n - i,
    {
        let c = string.get_char(i);
        if ('a' <= c && c <= 'z') || ('0' <= c && c <= '9') || c == ':' {
            push_char(&mut res, c);
        } else if 'A' <= c && c <= 'Z' {
            let b = c as u8;
            push_char(&mut res, ((b + 32) as char));
        }
        proof {
            lemma_simplify_chars_append(string@.take(i as int), seq![string@[i as int]]);
            assert(string@.take(i + 1) =~= string@.take(i as int) + seq![string@[i as int]]);
            assert(seq![string@[i as int]].drop_first() =~= Seq::<char>::empty());
            assert(simplify_chars(Seq::<char>::empty()) =~= Seq::<char>::empty());
            assert(simplify_chars(seq![string@[i as int]]) =~= simplify_char(string@[i as int]));
        }
        i += 1;
    }
    proof {
        assert(string@.take(n as int) =~= string@);
    }
    res
}

/// Normalization distributes over concatenation.
pub proof fn lemma_simplify_chars_append(s1: Seq<char>, s2: Seq<char>)
    ensures
        simplify_chars(s1 + s2) == simplify_chars(s1) + simplify_chars(s2),
    decreases s1.len(),
{
    if s1.len() == 0 {
        assert(s1 + s2 =~= s2);
        assert(simplify_chars(s1) + simplify_chars(s2) =~= simplify_chars(s2));
    } else {
        lemma_simplify_chars_append(s1.drop_first(), s2);
        assert((s1 + s2).drop_first() =~= s1.drop_first() + s2);
        assert(simplify_chars(s1 + s2) =~= simplify_char(s1[0]) + simplify_chars(s1.drop_first() + s2));
        assert(simplify_char(s1[0]) + (simplify_chars(s1.drop_first()) + simplify_chars(s2))
            =~= (simplify_char(s1[0]) + simplify_chars(s1.drop_first())) + simplify_chars(s2));
    }
}

/// Every character that normalization emits is itself a kept character.
pub proof fn lemma_simplify_chars_simplified(s: Seq<char>)
    ensures
        simplified(simplify_chars(s)),
    decreases s.len(),
{
    if s.len() != 0 {
        lemma_simplify_chars_simplified(s.drop_first());
    }
}

/// Normalization leaves an already-normalized sequence unchanged.
pub proof fn lemma_simplify_identity(s: Seq<char>)
    requires
        simplified(s),
    ensures
        simplify_chars(s) == s,
    decreases s.len(),
{
    if s.len() == 0 {
        assert(simplify_chars(s) =~= s);
    } else {
        assert(keeps_char(s[0]));
        lemma_simplify_identity(s.drop_first());
        assert(simplify_chars(s) =~= seq![s[0]] + s.drop_first());
        assert(seq![s[0]] + s.drop_first() =~= s);
    }
}

/// Normalization is idempotent: normalizing a second time changes nothing.
pub proof fn lemma_simplify_idempotent(s: Seq<char>)
    ensures
        simplify_chars(simplify_chars(s)) == simplify_chars(s),
{
    lemma_simplify_chars_simplified(s);
    lemma_simplify_identity(simplify_chars(s));
}

/// Normalization is case-insensitive: lowercasing the input first makes
/// no difference.
pub proof fn lemma_simplify_case_insensitive(s: Seq<char>)
    ensures
        simplify_chars(lower_chars(s)) == simplify_chars(s),
    decreases s.len(),
{
    if s.len() == 0 {
        assert(lower_chars(s) =~= Seq::<char>::empty());
    } else {
        lemma_simplify_case_insensitive(s.drop_first());
        assert(lower_chars(s).drop_first() =~= lower_chars(s.drop_first()));
        assert(simplify_char(lower_chars(s)[0]) =~= simplify_char(s[0]));
    }
}

/// Character-by-character equality of two string slices.
pub fn str_eq(a: &str, b: &str) -> (r: bool)
    ensures
        r == (a@ == b@),
{
    let na = a.unicode_len();
    let nb = b.unicode_len();
    if na != nb {
        return false;
    }
    let mut i: usize = 0;
    while i < na
        invariant
            i <= na,
            na == a@.len(),
            na == b@.len(),
            forall|j: int| 0 <= j < i ==> a@[j] == b@[j],
        decreases na - i,
    {
        if a.get_char(i) != b.get_char(i) {
            return false;
        }
        i += 1;
    }
    proof {
        assert(a@ =~= b@);
    }
    true
}

/// The position of the last `/` in a path, or `-1` when there is none.
pub open spec fn last_slash_index(p: Seq<char>) -> int
    decreases p.len(),
{
    if p.len() == 0 {
        -1
    } else if p.last() == '/' {
        p.len() - 1
    } else {
        last_slash_index(p.drop_last())
    }
}

/// The file name of a path: everything after the last `/`.
pub open spec fn file_name_of(p: Seq<char>) -> Seq<char> {
    p.skip(last_slash_index(p) + 1)
}

/// The position of the last `.` in a file name, or `-1` when there is none.
pub open spec fn last_dot_index(n: Seq<char>) -> int
    decreases n.len(),
{
    if n.len() == 0 {
        -1
    } else if n.last() == '.' {
        n.len() - 1
    } else {
        last_dot_index(n.drop_last())
    }
}

/// The stem of a file name: the part before the last `.`. A dot in the
/// leading position marks a hidden file, not an extension.
pub open spec fn stem_of(n: Seq<char>) -> Seq<char> {
    if last_dot_index(n) <= 0 {
        n
    } else {
        n.take(last_dot_index(n))
    }
}

/// The extension of a file name: the part after the last `.`, empty when
/// the name has no extension.
pub open spec fn ext_of(n: Seq<char>) -> Seq<char> {
    if last_dot_index(n) <= 0 {
        Seq::empty()
    } else {
        n.skip(last_dot_index(n) + 1)
    }
}

/// The stem of the file named by a path.
pub open spec fn path_stem(p: Seq<char>) -> Seq<char> {
    stem_of(file_name_of(p))
}

/// The extension of the file named by a path.
pub open spec fn path_ext(p: Seq<char>) -> Seq<char> {
    ext_of(file_name_of(p))
}

/// The last-slash position always lies inside the path.
pub proof fn lemma_last_slash_index_bounds(p: Seq<char>)
    ensures
        -1 <= last_slash_index(p) < p.len(),
    decreases p.len(),
{
    if p.len() > 0 && p.last() != '/' {
        lemma_last_slash_index_bounds(p.drop_last());
    }
}

/// The last-dot position always lies inside the name.
pub proof fn lemma_last_dot_index_bounds(n: Seq<char>)
    ensures
        -1 <= last_dot_index(n) < n.len(),
    decreases n.len(),
{
    if n.len() > 0 && n.last() != '.' {
        lemma_last_dot_index_bounds(n.drop_last());
    }
}

/// A path that does not end in a separator has a nonempty file stem.
pub proof fn lemma_path_stem_nonempty(p: Seq<char>)
    requires
        p.len() > 0,
        p.last() != '/',
    ensures
        path_stem(p).len() > 0,
{
    lemma_last_slash_index_bounds(p.drop_last());
    assert(last_slash_index(p) == last_slash_index(p.drop_last()));
    assert(last_slash_index(p) < p.len() - 1);
    let f = file_name_of(p);
    assert(f.len() > 0);
    lemma_last_dot_index_bounds(f);
}

fn last_char_position(s: &str, c: char) -> (r: Option<usize>)
    ensures
        match r {
            Some(k) => {
                &&& 0 <= k < s@.len()
                &&& s@[k as int] == c
                &&& forall|j: int| k < j < s@.len() ==> s@[j] != c
            },
            None => forall|j: int| 0 <= j < s@.len() ==> s@[j] != c,
        },
{
    let n = s.unicode_len();
    let mut found: Option<usize> = None;
    let mut i: usize = 0;
    while i < n
        invariant
            i <= n,
            n == s@.len(),
            match found {
                Some(k) => {
                    &&& 0 <= k < i
                    &&& s@[k as int] == c
                    &&& forall|j: int| k < j < i ==> s@[j] != c
                },
                None => forall|j: int| 0 <= j < i ==> s@[j] != c,
            },
        decreases n - i,
    {
        if s.get_char(i) == c {
            found = Some(i);
        }
        i += 1;
    }
    found
}

proof fn lemma_last_slash_at(p: Seq<char>, k: int)
    requires
        0 <= k < p.len(),
        p[k] == '/',
        forall|j: int| k < j < p.len() ==> p[j] != '/',
    ensures
        last_slash_index(p) == k,
    decreases p.len(),
{
    if p.len() - 1 > k {
        lemma_last_slash_at(p.drop_last(), k);
    }
}

proof fn lemma_no_slash(p: Seq<char>)
    requires
        forall|j: int| 0 <= j < p.len() ==> p[j] != '/',
    ensures
        last_slash_index(p) == -1,
    decreases p.len(),
{
    if p.len() > 0 {
        lemma_no_slash(p.drop_last());
    }
}

proof fn lemma_last_dot_at(n: Seq<char>, k: int)
    requires
        0 <= k < n.len(),
        n[k] == '.',
        forall|j: int| k < j < n.len() ==> n[j] != '.',
    ensures
        last_dot_index(n) == k,
    decreases n.len(),
{
    if n.len() - 1 > k {
        lemma_last_dot_at(n.drop_last(), k);
    }
}

proof fn lemma_no_dot(n: Seq<char>)
    requires
        forall|j: int| 0 <= j < n.len() ==> n[j] != '.',
    ensures
        last_dot_index(n) == -1,
    decreases n.len(),
{
    if n.len() > 0 {
        lemma_no_dot(n.drop_last());
    }
}

/// Splits a path into the stem and the extension of its file name.
pub fn split_path(path: &str) -> (r: (String, String))
    ensures
        r.0@ == path_stem(path@),
        r.1@ == path_ext(path@),
{
    let n = path.unicode_len();
    let start: usize = match last_char_position(path, '/') {
        Some(k) => {
            proof {
                lemma_last_slash_at(path@, k as int);
            }
            k + 1
        },
        None => {
            proof {
                lemma_no_slash(path@);
            }
            0
        },
    };
    let fname = path.substring_char(start, n);
    proof {
        assert(fname@ =~= file_name_of(path@));
    }
    let fn_len = fname.unicode_len();
    match last_char_position(fname, '.') {
        Some(d) => {
            proof {
                lemma_last_dot_at(fname@, d as int);
            }
            if d == 0 {
                (fname.to_owned(), String::new())
            } else {
                let stem = fname.substring_char(0, d).to_owned();
                let ext = fname.substring_char(d + 1, fn_len).to_owned();
                proof {
                    assert(stem@ =~= fname@.take(d as int));
                    assert(ext@ =~= fname@.skip(d + 1));
                }
                (stem, ext)
            }
        },
        None => {
            proof {
                lemma_no_dot(fname@);
                assert(fname@.take(fname@.len() as int) =~= fname@);
            }
            (fname.to_owned(), String::new())
        },
    }
}

/// The little-endian 64-bit value held by an 8-byte window.
pub open spec fn le_bytes(b: Seq<u8>) -> u64
    recommends
        b.len() == 8,
{
    (b[0] as u64) | ((b[1] as u64) << 8) | ((b[2] as u64) << 16) | ((b[3] as u64) << 24)
        | ((b[4] as u64) << 32) | ((b[5] as u64) << 40) | ((b[6] as u64) << 48) | ((b[7] as u64)
        << 56)
}

/// The streaming state after the first `n` bytes: the 8-byte window and the
/// accumulator. Each byte overwrites one slot of the window in rotation, and
/// at every eighth byte (the first of each window) the accumulator takes the
/// window's little-endian value by XOR.
pub open spec fn hash_state(data: Seq<u8>, n: int) -> (Seq<u8>, u64)
    decreases n,
{
    if n <= 0 {
        (seq![0u8, 0u8, 0u8, 0u8, 0u8, 0u8, 0u8, 0u8], 0u64)
    } else {
        let prev = hash_state(data, n - 1);
        let buf = prev.0.update((n - 1) % 8, data[n - 1]);
        (buf, if (n - 1) % 8 == 0 {
            prev.1 ^ le_bytes(buf)
        } else {
            prev.1
        })
    }
}

/// The content hash of a byte sequence: an order-dependent streaming hash
/// over 8-byte windows, XOR-accumulated. It is a change detector, not a
/// cryptographic digest; collisions are possible and acceptable.
pub open spec fn hash_spec(data: Seq<u8>) -> u64 {
    hash_state(data, data.len() as int).1
}

fn le64(b: &Vec<u8>) -> (w: u64)
    requires
        b@.len() == 8,
    ensures
        w == le_bytes(b@),
{
    (b[0] as u64) | ((b[1] as u64) << 8) | ((b[2] as u64) << 16) | ((b[3] as u64) << 24) | ((b[4]
        as u64) << 32) | ((b[5] as u64) << 40) | ((b[6] as u64) << 48) | ((b[7] as u64) << 56)
}

/// Computes the content hash of `data`. The result depends on the bytes
/// alone, so repeated calls on equal contents agree, across processes too.
pub fn hash(data: &Vec<u8>) -> (h: u64)
    ensures
        h == hash_spec(data@),
{
    let mut h: u64 = 0;
    let mut buffer: Vec<u8> = vec![0u8, 0u8, 0u8, 0u8, 0u8, 0u8, 0u8, 0u8];
    let mut idx: usize = 0;
    while idx < data.len()
        invariant
            idx <= data@.len(),
            buffer@.len() == 8,
            buffer@ == hash_state(data@, idx as int).0,
            h == hash_state(data@, idx as int).1,
        decreases data@.len() - idx,
    {
        let byte = data[idx];
        buffer[idx % 8] = byte;
        if idx % 8 == 0 {
            let w = le64(&buffer);
            h = h ^ w;
        }
        idx += 1;
    }
    h
}

} // verus!
