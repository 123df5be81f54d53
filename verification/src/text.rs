//! Character-level string utilities: searching, trimming, splitting and
//! key/value association lists, each with an exact specification.

use vstd::prelude::*;
use vstd::string::*;

verus! {

/// Unicode whitespace (the White_Space property), as `str::trim` removes
/// from the ends of the pieces of a comma-separated list.
pub open spec fn is_space(c: char) -> bool {
    ||| ('\u{0009}' <= c && c <= '\u{000D}')
    ||| c == ' '
    ||| c == '\u{0085}'
    ||| c == '\u{00A0}'
    ||| c == '\u{1680}'
    ||| ('\u{2000}' <= c && c <= '\u{200A}')
    ||| c == '\u{2028}'
    ||| c == '\u{2029}'
    ||| c == '\u{202F}'
    ||| c == '\u{205F}'
    ||| c == '\u{3000}'
}

/// Index of the first occurrence of `c` in `s`, if any.
pub open spec fn find_pos(s: Seq<char>, c: char) -> Option<int>
    decreases s.len(),
{
    if s.len() == 0 {
        None
    } else if s[0] == c {
        Some(0)
    } else {
        match find_pos(s.drop_first(), c) {
            Some(i) => Some(i + 1),
            None => None,
        }
    }
}

pub proof fn lemma_find_pos(s: Seq<char>, c: char)
    ensures
        match find_pos(s, c) {
            Some(i) => 0 <= i < s.len() && s[i] == c && (forall|j: int| 0 <= j < i ==> s[j] != c),
            None => forall|j: int| 0 <= j < s.len() ==> s[j] != c,
        },
    decreases s.len(),
{
    if s.len() > 0 && s[0] != c {
        let t = s.drop_first();
        lemma_find_pos(t, c);
        assert(forall|j: int| 0 <= j < t.len() ==> t[j] == s[j + 1]);
        match find_pos(t, c) {
            Some(i) => {
                assert(find_pos(s, c) == Some(i + 1));
                assert(forall|j: int| 1 <= j < i + 1 ==> s[j] == t[j - 1] && t[j - 1] != c);
            },
            None => {
                assert(forall|j: int| 1 <= j < s.len() ==> s[j] == t[j - 1] && t[j - 1] != c);
            },
        }
    }
}

/// The characterization in `lemma_find_pos` pins `find_pos` down uniquely.
pub proof fn lemma_find_pos_is(s: Seq<char>, c: char, i: int)
    requires
        0 <= i < s.len(),
        s[i] == c,
        forall|j: int| 0 <= j < i ==> s[j] != c,
    ensures
        find_pos(s, c) == Some(i),
{
    lemma_find_pos(s, c);
    match find_pos(s, c) {
        Some(k) => {
            if k < i {
                assert(s[k] != c);
            } else if k > i {
                assert(s[i] != c);
            }
        },
        None => {
            assert(s[i] != c);
        },
    }
}

pub proof fn lemma_find_pos_none(s: Seq<char>, c: char)
    requires
        forall|j: int| 0 <= j < s.len() ==> s[j] != c,
    ensures
        find_pos(s, c) == None::<int>,
{
    lemma_find_pos(s, c);
    if let Some(k) = find_pos(s, c) {
        assert(s[k] != c);
    }
}

/// Whether `c` occurs anywhere in `s`.
pub open spec fn has_char(s: Seq<char>, c: char) -> bool {
    exists|i: int| 0 <= i < s.len() && s[i] == c
}

/// Whether `s` ends with `suffix`.
pub open spec fn ends_with(s: Seq<char>, suffix: Seq<char>) -> bool {
    suffix.len() <= s.len() && s.subrange(s.len() - suffix.len(), s.len() as int) == suffix
}

/// `s` with leading whitespace removed.
pub open spec fn trim_start(s: Seq<char>) -> Seq<char>
    decreases s.len(),
{
    if s.len() > 0 && is_space(s[0]) {
        trim_start(s.drop_first())
    } else {
        s
    }
}

/// `s` with trailing whitespace removed.
pub open spec fn trim_end(s: Seq<char>) -> Seq<char>
    decreases s.len(),
{
    if s.len() > 0 && is_space(s.last()) {
        trim_end(s.drop_last())
    } else {
        s
    }
}

/// `s` with leading and trailing whitespace removed.
pub open spec fn trim(s: Seq<char>) -> Seq<char> {
    trim_end(trim_start(s))
}

proof fn lemma_trim_start_at(s: Seq<char>, i: int)
    requires
        0 <= i <= s.len(),
        forall|k: int| 0 <= k < i ==> is_space(s[k]),
        i == s.len() || !is_space(s[i]),
    ensures
        trim_start(s) == s.subrange(i, s.len() as int),
    decreases i,
{
    if i == 0 {
        if s.len() > 0 && is_space(s[0]) {
            assert(!is_space(s[0]));
        }
        assert(s.subrange(0, s.len() as int) =~= s);
    } else {
        assert(is_space(s[0]));
        let t = s.drop_first();
        assert(forall|k: int| 0 <= k < i - 1 ==> is_space(t[k]));
        lemma_trim_start_at(t, i - 1);
        assert(t.subrange(i - 1, t.len() as int) =~= s.subrange(i, s.len() as int));
    }
}

proof fn lemma_trim_end_at(s: Seq<char>, j: int)
    requires
        0 <= j <= s.len(),
        forall|k: int| j <= k < s.len() ==> is_space(s[k]),
        j == 0 || !is_space(s[j - 1]),
    ensures
        trim_end(s) == s.subrange(0, j),
    decreases s.len() - j,
{
    if j == s.len() {
        if s.len() > 0 && is_space(s.last()) {
            assert(!is_space(s[j - 1]));
        }
        assert(s.subrange(0, s.len() as int) =~= s);
    } else {
        assert(is_space(s.last()));
        let t = s.drop_last();
        lemma_trim_end_at(t, j);
        assert(t.subrange(0, j) =~= s.subrange(0, j));
    }
}

/// Executable test for Unicode whitespace.
pub fn is_space_char(c: char) -> (r: bool)
    ensures
        r == is_space(c),
{
    ('\u{0009}' <= c && c <= '\u{000D}') || c == ' ' || c == '\u{0085}' || c == '\u{00A0}'
        || c == '\u{1680}' || ('\u{2000}' <= c && c <= '\u{200A}') || c == '\u{2028}'
        || c == '\u{2029}' || c == '\u{202F}' || c == '\u{205F}' || c == '\u{3000}'
}

/// First index of `c` in `s`, if any.
pub fn find_char(s: &str, c: char) -> (r: Option<usize>)
    ensures
        match r {
            Some(i) => find_pos(s@, c) == Some(i as int),
            None => find_pos(s@, c) == None::<int>,
        },
{
    let n = s.unicode_len();
    let mut i: usize = 0;
    while i < n
        invariant
            0 <= i <= n,
            n == s@.len(),
            forall|j: int| 0 <= j < i ==> s@[j] != c,
        decreases n - i,
    {
        if s.get_char(i) == c {
            proof {
                lemma_find_pos_is(s@, c, i as int);
            }
            return Some(i);
        }
        i = i + 1;
    }
    proof {
        lemma_find_pos_none(s@, c);
    }
    None
}

/// Whether `c` occurs anywhere in `s`.
pub fn contains_char(s: &str, c: char) -> (r: bool)
    ensures
        r == has_char(s@, c),
{
    let n = s.unicode_len();
    let mut i: usize = 0;
    while i < n
        invariant
            0 <= i <= n,
            n == s@.len(),
            forall|j: int| 0 <= j < i ==> s@[j] != c,
        decreases n - i,
    {
        if s.get_char(i) == c {
            return true;
        }
        i = i + 1;
    }
    false
}

/// Character-wise string equality.
pub fn str_eq(a: &str, b: &str) -> (r: bool)
    ensures
        r == (a@ == b@),
{
    let na = a.unicode_len();
    let nb = b.unicode_len();
    if na != nb {
        return false;
    }
    let mut i: usize = 0;
    while i < na
        invariant
            0 <= i <= na,
            na == a@.len(),
            na == b@.len(),
            forall|j: int| 0 <= j < i ==> a@[j] == b@[j],
        decreases na - i,
    {
        if a.get_char(i) != b.get_char(i) {
            return false;
        }
        i = i + 1;
    }
    proof {
        assert(a@ =~= b@);
    }
    true
}

/// `s` with leading and trailing whitespace removed.
pub fn trim_str(s: &str) -> (r: &str)
    ensures
        r@ == trim(s@),
{
    let n = s.unicode_len();
    let mut i: usize = 0;
    while i < n && is_space_char(s.get_char(i))
        invariant
            0 <= i <= n,
            n == s@.len(),
            forall|k: int| 0 <= k < i ==> is_space(s@[k]),
        decreases n - i,
    {
        i = i + 1;
    }
    let mut j: usize = n;
    while j > i && is_space_char(s.get_char(j - 1))
        invariant
            i <= j <= n,
            n == s@.len(),
            forall|k: int| 0 <= k < i ==> is_space(s@[k]),
            i == n || !is_space(s@[i as int]),
            forall|k: int| j <= k < n ==> is_space(s@[k]),
        decreases j,
    {
        j = j - 1;
    }
    let r = s.substring_char(i, j);
    proof {
        let start = s@.subrange(i as int, n as int);
        lemma_trim_start_at(s@, i as int);
        assert(forall|k: int| j - i <= k < start.len() ==> is_space(start[k]));
        if j > i {
            assert(!is_space(start[j - i - 1]));
        }
        lemma_trim_end_at(start, j - i);
        assert(start.subrange(0, j - i) =~= s@.subrange(i as int, j as int));
    }
    r
}

/// Whether `s` ends with `tail`, character by character.
pub fn ends_with_str(s: &str, tail: &str) -> (r: bool)
    ensures
        r == ends_with(s@, tail@),
{
    let ns = s.unicode_len();
    let nt = tail.unicode_len();
    if nt > ns {
        return false;
    }
    let ghost cut = s@.subrange(ns - nt, ns as int);
    let mut k: usize = 0;
    while k < nt
        invariant
            0 <= k <= nt <= ns,
            ns == s@.len(),
            nt == tail@.len(),
            cut == s@.subrange(ns - nt, ns as int),
            forall|j: int| 0 <= j < k ==> cut[j] == tail@[j],
        decreases nt - k,
    {
        if s.get_char(ns - nt + k) != tail.get_char(k) {
            proof {
                assert(cut[k as int] == s@[ns - nt + k]);
                assert(cut != tail@);
            }
            return false;
        }
        proof {
            assert(cut[k as int] == s@[ns - nt + k]);
        }
        k = k + 1;
    }
    proof {
        assert(cut =~= tail@);
    }
    true
}

/// The pieces of `s` between occurrences of `sep`; always at least one piece.
pub open spec fn split_on(s: Seq<char>, sep: char) -> Seq<Seq<char>>
    decreases s.len(),
{
    if s.len() == 0 {
        seq![s]
    } else if s[0] == sep {
        seq![Seq::<char>::empty()] + split_on(s.drop_first(), sep)
    } else {
        let rest = split_on(s.drop_first(), sep);
        seq![seq![s[0]] + rest[0]] + rest.drop_first()
    }
}

/// Splitting a separator-free sequence yields that sequence as the one piece.
pub proof fn lemma_split_on_whole(s: Seq<char>, sep: char)
    requires
        find_pos(s, sep) == None::<int>,
    ensures
        split_on(s, sep) == seq![s],
    decreases s.len(),
{
    if s.len() > 0 {
        lemma_find_pos(s, sep);
        proof_find_pos_drop(s, sep);
        lemma_split_on_whole(s.drop_first(), sep);
        let rest = split_on(s.drop_first(), sep);
        assert(rest == seq![s.drop_first()]);
        assert(seq![s[0]] + s.drop_first() =~= s);
        assert(rest.drop_first() =~= Seq::<Seq<char>>::empty());
        assert(seq![seq![s[0]] + rest[0]] + rest.drop_first() =~= seq![s]);
    }
}

proof fn proof_find_pos_drop(s: Seq<char>, sep: char)
    requires
        s.len() > 0,
        s[0] != sep,
    ensures
        find_pos(s.drop_first(), sep) == match find_pos(s, sep) {
            Some(i) => Some(i - 1),
            None => None::<int>,
        },
{
}

/// Splitting at the first separator peels off the piece before it.
pub proof fn lemma_split_on_step(s: Seq<char>, sep: char, i: int)
    requires
        find_pos(s, sep) == Some(i),
    ensures
        0 <= i < s.len(),
        split_on(s, sep) == seq![s.subrange(0, i)] + split_on(
            s.subrange(i + 1, s.len() as int),
            sep,
        ),
    decreases s.len(),
{
    lemma_find_pos(s, sep);
    if s[0] == sep {
        assert(i == 0);
        assert(s.subrange(0, 0) =~= Seq::<char>::empty());
        assert(s.subrange(1, s.len() as int) =~= s.drop_first());
    } else {
        proof_find_pos_drop(s, sep);
        lemma_split_on_step(s.drop_first(), sep, i - 1);
        let t = s.drop_first();
        assert(t.subrange(0, i - 1) =~= s.subrange(1, i));
        assert(t.subrange(i, t.len() as int) =~= s.subrange(i + 1, s.len() as int));
        let rest = split_on(t, sep);
        assert(rest == seq![s.subrange(1, i)] + split_on(s.subrange(i + 1, s.len() as int), sep));
        assert(rest[0] == s.subrange(1, i));
        assert(seq![s[0]] + rest[0] =~= s.subrange(0, i));
        assert(rest.drop_first() =~= split_on(s.subrange(i + 1, s.len() as int), sep));
        assert(seq![seq![s[0]] + rest[0]] + rest.drop_first() =~= seq![s.subrange(0, i)]
            + split_on(s.subrange(i + 1, s.len() as int), sep));
    }
}

/// The views of a sequence of strings.
pub open spec fn views_of(s: Seq<String>) -> Seq<Seq<char>> {
    s.map_values(|x: String| x@)
}

/// Split `s` at every occurrence of `sep`.
pub fn split_str(s: &str, sep: char) -> (r: Vec<String>)
    ensures
        views_of(r@) == split_on(s@, sep),
{
    let n = s.unicode_len();
    let mut pieces: Vec<String> = Vec::new();
    let mut start: usize = 0;
    proof {
        assert(s@.subrange(0, n as int) =~= s@);
        assert(views_of(pieces@) =~= Seq::<Seq<char>>::empty());
    }
    loop
        invariant
            0 <= start <= n,
            n == s@.len(),
            split_on(s@, sep) == views_of(pieces@) + split_on(
                s@.subrange(start as int, n as int),
                sep,
            ),
        decreases n - start + 1,
    {
        let ghost tail = s@.subrange(start as int, n as int);
        let mut i: usize = start;
        while i < n && s.get_char(i) != sep
            invariant
                start <= i <= n,
                n == s@.len(),
                forall|j: int| start <= j < i ==> s@[j] != sep,
            decreases n - i,
        {
            i = i + 1;
        }
        let piece = s.substring_char(start, i).to_owned();
        proof {
            assert(forall|j: int| 0 <= j < i - start ==> tail[j] != sep);
        }
        if i < n {
            proof {
                assert(tail[i - start] == sep);
                lemma_find_pos_is(tail, sep, i - start);
                lemma_split_on_step(tail, sep, i - start);
                assert(tail.subrange(0, i - start) =~= s@.subrange(start as int, i as int));
                assert(tail.subrange(i - start + 1, tail.len() as int) =~= s@.subrange(
                    i + 1,
                    n as int,
                ));
            }
            let ghost old_pieces = pieces@;
            pieces.push(piece);
            proof {
                assert(views_of(pieces@) =~= views_of(old_pieces).push(
                    s@.subrange(start as int, i as int),
                ));
                assert(views_of(old_pieces) + split_on(tail, sep) =~= views_of(pieces@)
                    + split_on(s@.subrange(i + 1, n as int), sep));
            }
            start = i + 1;
        } else {
            proof {
                lemma_find_pos_none(tail, sep);
                lemma_split_on_whole(tail, sep);
                assert(tail =~= s@.subrange(start as int, i as int));
            }
            let ghost old_pieces = pieces@;
            pieces.push(piece);
            proof {
                assert(views_of(pieces@) =~= views_of(old_pieces).push(tail));
                assert(views_of(old_pieces) + split_on(tail, sep) =~= views_of(pieces@));
                assert(views_of(pieces@) + Seq::<Seq<char>>::empty() =~= views_of(pieces@));
                assert(split_on(s@, sep) =~= views_of(pieces@));
            }
            return pieces;
        }
    }
}

/// The views of a sequence of string pairs.
pub open spec fn kv_views(s: Seq<(String, String)>) -> Seq<(Seq<char>, Seq<char>)> {
    s.map_values(|kv: (String, String)| (kv.0@, kv.1@))
}

/// First value associated with key `k` in the association list `m`.
pub open spec fn lookup_kv(m: Seq<(Seq<char>, Seq<char>)>, k: Seq<char>) -> Option<Seq<char>>
    decreases m.len(),
{
    if m.len() == 0 {
        None
    } else if m[0].0 == k {
        Some(m[0].1)
    } else {
        lookup_kv(m.drop_first(), k)
    }
}

/// `m` with the first entry keyed `k` replaced by `(k, v)`, or `(k, v)`
/// appended when no entry has that key.
pub open spec fn insert_kv(
    m: Seq<(Seq<char>, Seq<char>)>,
    k: Seq<char>,
    v: Seq<char>,
) -> Seq<(Seq<char>, Seq<char>)>
    decreases m.len(),
{
    if m.len() == 0 {
        seq![(k, v)]
    } else if m[0].0 == k {
        seq![(k, v)] + m.drop_first()
    } else {
        seq![m[0]] + insert_kv(m.drop_first(), k, v)
    }
}

proof fn lemma_lookup_kv_at(m: Seq<(Seq<char>, Seq<char>)>, k: Seq<char>, i: int)
    requires
        0 <= i < m.len(),
        m[i].0 == k,
        forall|j: int| 0 <= j < i ==> m[j].0 != k,
    ensures
        lookup_kv(m, k) == Some(m[i].1),
    decreases i,
{
    if i > 0 {
        lemma_lookup_kv_at(m.drop_first(), k, i - 1);
    }
}

proof fn lemma_lookup_kv_none(m: Seq<(Seq<char>, Seq<char>)>, k: Seq<char>)
    requires
        forall|j: int| 0 <= j < m.len() ==> m[j].0 != k,
    ensures
        lookup_kv(m, k) == None::<Seq<char>>,
    decreases m.len(),
{
    if m.len() > 0 {
        lemma_lookup_kv_none(m.drop_first(), k);
    }
}

proof fn lemma_insert_kv_update(m: Seq<(Seq<char>, Seq<char>)>, k: Seq<char>, v: Seq<char>, i: int)
    requires
        0 <= i < m.len(),
        m[i].0 == k,
        forall|j: int| 0 <= j < i ==> m[j].0 != k,
    ensures
        insert_kv(m, k, v) == m.update(i, (k, v)),
    decreases i,
{
    if i == 0 {
        assert(seq![(k, v)] + m.drop_first() =~= m.update(0, (k, v)));
    } else {
        lemma_insert_kv_update(m.drop_first(), k, v, i - 1);
        assert(seq![m[0]] + m.drop_first().update(i - 1, (k, v)) =~= m.update(i, (k, v)));
    }
}

proof fn lemma_insert_kv_push(m: Seq<(Seq<char>, Seq<char>)>, k: Seq<char>, v: Seq<char>)
    requires
        forall|j: int| 0 <= j < m.len() ==> m[j].0 != k,
    ensures
        insert_kv(m, k, v) == m.push((k, v)),
    decreases m.len(),
{
    if m.len() == 0 {
        assert(seq![(k, v)] =~= m.push((k, v)));
    } else {
        lemma_insert_kv_push(m.drop_first(), k, v);
        assert(seq![m[0]] + m.drop_first().push((k, v)) =~= m.push((k, v)));
    }
}

/// Value stored under key `k` in the association list, cloned out.
pub fn assoc_get(m: &Vec<(String, String)>, k: &str) -> (r: Option<String>)
    ensures
        match r {
            Some(v) => lookup_kv(kv_views(m@), k@) == Some(v@),
            None => lookup_kv(kv_views(m@), k@) == None::<Seq<char>>,
        },
{
    let n = m.len();
    let mut i: usize = 0;
    while i < n
        invariant
            0 <= i <= n,
            n == m@.len(),
            forall|j: int| 0 <= j < i ==> kv_views(m@)[j].0 != k@,
        decreases n - i,
    {
        if str_eq(m[i].0.as_str(), k) {
            proof {
                lemma_lookup_kv_at(kv_views(m@), k@, i as int);
            }
            return Some(m[i].1.clone());
        }
        proof {
            assert(kv_views(m@)[i as int].0 == m@[i as int].0@);
        }
        i = i + 1;
    }
    proof {
        lemma_lookup_kv_none(kv_views(m@), k@);
    }
    None
}

/// Store `v` under key `k`, replacing the first entry with that key if one
/// exists and appending otherwise.
pub fn assoc_set(m: &mut Vec<(String, String)>, k: String, v: String)
    ensures
        kv_views(final(m)@) == insert_kv(kv_views(old(m)@), k@, v@),
{
    let n = m.len();
    let mut i: usize = 0;
    while i < n
        invariant
            0 <= i <= n,
            n == m@.len(),
            m@ == old(m)@,
            forall|j: int| 0 <= j < i ==> kv_views(m@)[j].0 != k@,
        decreases n - i,
    {
        if str_eq(m[i].0.as_str(), k.as_str()) {
            proof {
                lemma_insert_kv_update(kv_views(m@), k@, v@, i as int);
            }
            m.remove(i);
            m.insert(i, (k, v));
            proof {
                assert(kv_views(m@) =~= insert_kv(kv_views(old(m)@), k@, v@));
            }
            return ;
        }
        proof {
            assert(kv_views(m@)[i as int].0 == m@[i as int].0@);
        }
        i = i + 1;
    }
    proof {
        lemma_insert_kv_push(kv_views(m@), k@, v@);
    }
    m.push((k, v));
    proof {
        assert(kv_views(m@) =~= insert_kv(kv_views(old(m)@), k@, v@));
    }
}

/// The sequence of characters that `str::to_lowercase` yields for `s`: Unicode
/// case mapping, a function of the characters of `s` alone.
pub uninterp spec fn lower_of(s: Seq<char>) -> Seq<char>;

/// Relies on `str::to_lowercase` from std: its result depends on the
/// characters of the input alone, and lowercasing an already-lowercase
/// string returns it unchanged, so each result is a fixed point.
#[verifier::external_body]
pub fn lowercase(s: &str) -> (r: String)
    ensures
        r@ == lower_of(s@),
        lower_of(r@) == r@,
{
    s.to_lowercase()
}

} // verus!
