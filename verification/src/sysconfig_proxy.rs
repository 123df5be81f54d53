//! The sysconfig-style proxy file source: a line-oriented `KEY="VALUE"`
//! store with a mandatory `PROXY_ENABLED` switch, scheme keys `HTTP_PROXY`,
//! `HTTPS_PROXY` and `FTP_PROXY`, and a comma-separated `NO_PROXY` whitelist.
//!
//! Reading the file itself is a collaborator's job; this module receives the
//! outcome of that read as a [`FileSnapshot`] and does everything else.

use vstd::prelude::*;
use vstd::string::*;

use crate::text::{
    find_char, find_pos, insert_kv, kv_views, lemma_find_pos, lookup_kv, lower_of, lowercase,
    split_on, split_str, str_eq, trim, trim_str, views_of,
};
use crate::{ProxyConfig, ProxyConfigView, ProxyError};

verus! {

/// The outcome of one attempt to read the proxy file: absent (not a fault),
/// unreadable (an I/O fault), or present with these contents.
pub enum FileSnapshot {
    Missing,
    Unreadable,
    Contents(String),
}

/// `line` with a single trailing carriage return removed, as a line reader
/// strips the `\r` of a CRLF ending.
pub open spec fn strip_cr(line: Seq<char>) -> Seq<char> {
    if line.len() > 0 && line.last() == '\r' {
        line.drop_last()
    } else {
        line
    }
}

/// The lines of `s`: pieces between newlines.  A piece terminated by a
/// newline has a trailing `\r` removed (a CRLF ending); the final piece,
/// which no newline terminated, is kept as it stands.
pub open spec fn lines_of(s: Seq<char>) -> Seq<Seq<char>> {
    let pieces = split_on(s, '\n');
    pieces.map(
        |i: int, line: Seq<char>|
            if i < pieces.len() - 1 {
                strip_cr(line)
            } else {
                line
            },
    )
}

/// Everything before the first double quote of `s`; all of `s` when it has
/// none.
pub open spec fn before_quote(s: Seq<char>) -> Seq<char> {
    match find_pos(s, '"') {
        Some(i) => s.take(i),
        None => s,
    }
}

/// Index of the first `="` separator in `s`, if any.
pub open spec fn find_sep(s: Seq<char>) -> Option<int>
    decreases s.len(),
{
    if s.len() < 2 {
        None
    } else if s[0] == '=' && s[1] == '"' {
        Some(0)
    } else {
        match find_sep(s.drop_first()) {
            Some(i) => Some(i + 1),
            None => None,
        }
    }
}

pub proof fn lemma_find_sep(s: Seq<char>)
    ensures
        match find_sep(s) {
            Some(i) => 0 <= i && i + 1 < s.len() && s[i] == '=' && s[i + 1] == '"' && (forall|
                j: int,
            |
                0 <= j < i ==> !(#[trigger] s[j] == '=' && s[j + 1] == '"')),
            None => forall|j: int|
                0 <= j && j + 1 < s.len() ==> !(#[trigger] s[j] == '=' && s[j + 1] == '"'),
        },
    decreases s.len(),
{
    if s.len() >= 2 && !(s[0] == '=' && s[1] == '"') {
        let t = s.drop_first();
        lemma_find_sep(t);
        assert(forall|j: int| 0 <= j < t.len() ==> t[j] == s[j + 1]);
        match find_sep(t) {
            Some(i) => {
                assert(find_sep(s) == Some(i + 1));
                assert forall|j: int|
                    0 <= j < i + 1 implies !(#[trigger] s[j] == '=' && s[j + 1] == '"') by {
                    if j > 0 {
                        assert(!(t[j - 1] == '=' && t[j] == '"'));
                        assert(t[j - 1] == s[j] && t[j] == s[j + 1]);
                    }
                }
            },
            None => {
                assert forall|j: int|
                    0 <= j && j + 1 < s.len() implies !(#[trigger] s[j] == '=' && s[j + 1]
                    == '"') by {
                    if j > 0 {
                        assert(!(t[j - 1] == '=' && t[j] == '"'));
                        assert(t[j - 1] == s[j] && t[j] == s[j + 1]);
                    }
                }
            },
        }
    }
}

pub proof fn lemma_find_sep_is(s: Seq<char>, i: int)
    requires
        0 <= i,
        i + 1 < s.len(),
        s[i] == '=',
        s[i + 1] == '"',
        forall|j: int| 0 <= j < i ==> !(#[trigger] s[j] == '=' && s[j + 1] == '"'),
    ensures
        find_sep(s) == Some(i),
{
    lemma_find_sep(s);
    match find_sep(s) {
        Some(k) => {
            if k < i {
                assert(!(s[k] == '=' && s[k + 1] == '"'));
            } else if k > i {
                assert(!(s[i] == '=' && s[i + 1] == '"'));
            }
        },
        None => {
            assert(!(s[i] == '=' && s[i + 1] == '"'));
        },
    }
}

pub proof fn lemma_find_sep_none(s: Seq<char>)
    requires
        forall|j: int| 0 <= j && j + 1 < s.len() ==> !(#[trigger] s[j] == '=' && s[j + 1] == '"'),
    ensures
        find_sep(s) == None::<int>,
{
    lemma_find_sep(s);
    if let Some(i) = find_sep(s) {
        assert(!(s[i] == '=' && s[i + 1] == '"'));
    }
}

/// The key/value pairs read from `lines`, later lines overwriting earlier
/// ones.  A non-blank line without the `="` separator is a fault for the
/// whole file.
pub open spec fn parse_lines(lines: Seq<Seq<char>>) -> Result<
    Seq<(Seq<char>, Seq<char>)>,
    ProxyError,
>
    decreases lines.len(),
{
    if lines.len() == 0 {
        Ok(Seq::empty())
    } else {
        match parse_lines(lines.drop_last()) {
            Err(e) => Err(e),
            Ok(m) => {
                let line = lines.last();
                if line.len() == 0 {
                    Ok(m)
                } else {
                    match find_sep(line) {
                        None => Err(ProxyError::InvalidConfig),
                        Some(i) => Ok(
                            insert_kv(
                                m,
                                line.subrange(0, i),
                                before_quote(line.subrange(i + 2, line.len() as int)),
                            ),
                        ),
                    }
                }
            },
        }
    }
}

/// The key/value pairs of the whole contents `s`.
pub open spec fn pairs_of_contents(s: Seq<char>) -> Result<
    Seq<(Seq<char>, Seq<char>)>,
    ProxyError,
> {
    parse_lines(lines_of(s))
}

/// A faulty prefix of the lines decides the whole parse.
proof fn lemma_parse_lines_err(lines: Seq<Seq<char>>, k: int, e: ProxyError)
    requires
        0 <= k <= lines.len(),
        parse_lines(lines.take(k)) == Err::<Seq<(Seq<char>, Seq<char>)>, ProxyError>(e),
    ensures
        parse_lines(lines) == Err::<Seq<(Seq<char>, Seq<char>)>, ProxyError>(e),
    decreases lines.len(),
{
    if k == lines.len() {
        assert(lines.take(k) =~= lines);
    } else {
        assert(lines.drop_last().take(k) =~= lines.take(k));
        lemma_parse_lines_err(lines.drop_last(), k, e);
    }
}

/// Everything before the first double quote of `s`; all of `s` when it has
/// none.
pub fn strip_after_quote(s: &str) -> (r: &str)
    ensures
        r@ == before_quote(s@),
{
    proof {
        lemma_find_pos(s@, '"');
    }
    match find_char(s, '"') {
        Some(i) => s.substring_char(0, i),
        None => s,
    }
}

/// Find the first `="` separator of `line`, by index.
fn find_sep_str(line: &str) -> (r: Option<usize>)
    ensures
        match r {
            Some(i) => find_sep(line@) == Some(i as int),
            None => find_sep(line@) == None::<int>,
        },
{
    let n = line.unicode_len();
    if n < 2 {
        proof {
            lemma_find_sep_none(line@);
        }
        return None;
    }
    let mut i: usize = 0;
    while i + 1 < n
        invariant
            0 <= i,
            i + 1 <= n,
            n == line@.len(),
            forall|j: int| 0 <= j < i ==> !(#[trigger] line@[j] == '=' && line@[j + 1] == '"'),
        decreases n - i,
    {
        if line.get_char(i) == '=' && line.get_char(i + 1) == '"' {
            proof {
                lemma_find_sep_is(line@, i as int);
            }
            return Some(i);
        }
        i = i + 1;
    }
    proof {
        lemma_find_sep_none(line@);
    }
    None
}

/// Read the `KEY="VALUE"` pairs of `contents`: one pair per non-blank line,
/// the value running from after `="` to the next `"` or to the line's end,
/// later keys overwriting earlier ones.  A non-blank line without `="` is an
/// `InvalidConfig` fault for the whole file.
pub fn read_key_value_pairs(contents: &str) -> (r: Result<Vec<(String, String)>, ProxyError>)
    ensures
        match r {
            Ok(m) => pairs_of_contents(contents@) == Ok::<
                Seq<(Seq<char>, Seq<char>)>,
                ProxyError,
            >(kv_views(m@)),
            Err(e) => pairs_of_contents(contents@) == Err::<
                Seq<(Seq<char>, Seq<char>)>,
                ProxyError,
            >(e),
        },
{
    let raw_lines = split_str(contents, '\n');
    let ghost lns = lines_of(contents@);
    let mut result: Vec<(String, String)> = Vec::new();
    let n = raw_lines.len();
    proof {
        assert(lns.len() == n);
        assert(lns.take(0) =~= Seq::<Seq<char>>::empty());
        assert(kv_views(result@) =~= Seq::<(Seq<char>, Seq<char>)>::empty());
    }
    let mut idx: usize = 0;
    while idx < n
        invariant
            0 <= idx <= n,
            n == raw_lines@.len(),
            lns == lines_of(contents@),
            lns.len() == n,
            views_of(raw_lines@) == split_on(contents@, '\n'),
            parse_lines(lns.take(idx as int)) == Ok::<
                Seq<(Seq<char>, Seq<char>)>,
                ProxyError,
            >(kv_views(result@)),
        decreases n - idx,
    {
        let raw = raw_lines[idx].as_str();
        let rn = raw.unicode_len();
        let line: &str = if idx + 1 < n && rn > 0 && raw.get_char(rn - 1) == '\r' {
            raw.substring_char(0, rn - 1)
        } else {
            raw
        };
        proof {
            assert(views_of(raw_lines@)[idx as int] == raw_lines@[idx as int]@);
            assert(lns[idx as int] == (if idx + 1 < n {
                strip_cr(raw@)
            } else {
                raw@
            }));
            if idx + 1 < n {
                assert(line@ == strip_cr(raw@));
            }
            assert(line@ == lns[idx as int]);
            assert(lns.take(idx + 1).drop_last() =~= lns.take(idx as int));
            assert(lns.take(idx + 1).last() == lns[idx as int]);
        }
        if !line.is_empty() {
            match find_sep_str(line) {
                Some(i) => {
                    let ln = line.unicode_len();
                    proof {
                        lemma_find_sep(line@);
                    }
                    let key = line.substring_char(0, i).to_owned();
                    let after = line.substring_char(i + 2, ln);
                    let value = strip_after_quote(after).to_owned();
                    proof {
                        assert(after@ == line@.subrange(i + 2, line@.len() as int));
                    }
                    crate::text::assoc_set(&mut result, key, value);
                },
                None => {
                    proof {
                        assert(parse_lines(lns.take(idx + 1)) == Err::<
                            Seq<(Seq<char>, Seq<char>)>,
                            ProxyError,
                        >(ProxyError::InvalidConfig));
                        lemma_parse_lines_err(lns, idx + 1, ProxyError::InvalidConfig);
                    }
                    return Err(ProxyError::InvalidConfig);
                },
            }
        }
        idx = idx + 1;
    }
    proof {
        assert(lns.take(n as int) =~= lns);
    }
    Ok(result)
}

/// The whitelist entries of a `NO_PROXY` value: each comma-separated piece,
/// trimmed and lowercased, empty pieces included.
pub open spec fn file_whitelist(v: Seq<char>) -> Seq<Seq<char>> {
    split_on(v, ',').map_values(|p: Seq<char>| lower_of(trim(p)))
}

/// Build the whitelist from a `NO_PROXY` value.
fn whitelist_of(value: &str) -> (r: Vec<String>)
    ensures
        views_of(r@) == file_whitelist(value@),
{
    let pieces = split_str(value, ',');
    let mut out: Vec<String> = Vec::new();
    let n = pieces.len();
    proof {
        assert(views_of(out@) =~= file_whitelist(value@).take(0));
    }
    let mut i: usize = 0;
    while i < n
        invariant
            0 <= i <= n,
            n == pieces@.len(),
            views_of(pieces@) == split_on(value@, ','),
            views_of(out@) == file_whitelist(value@).take(i as int),
        decreases n - i,
    {
        let t = trim_str(pieces[i].as_str());
        let low = lowercase(t);
        let ghost prev = out@;
        out.push(low);
        proof {
            assert(views_of(pieces@)[i as int] == pieces@[i as int]@);
            assert(views_of(out@) =~= views_of(prev).push(lower_of(trim(pieces@[i as int]@))));
            assert(file_whitelist(value@)[i as int] == lower_of(trim(split_on(value@, ',')[i as int])));
            assert(views_of(out@) =~= file_whitelist(value@).take(i + 1));
        }
        i = i + 1;
    }
    proof {
        assert(file_whitelist(value@).take(n as int) =~= file_whitelist(value@));
    }
    out
}

/// The configuration that an enabled, well-formed key/value map yields:
/// `HTTP_PROXY`, `HTTPS_PROXY` and `FTP_PROXY` become the `http`, `https`
/// and `ftp` entries, `NO_PROXY` becomes the whitelist.
pub open spec fn enabled_config(m: Seq<(Seq<char>, Seq<char>)>) -> ProxyConfigView {
    let p0 = Seq::<(Seq<char>, Seq<char>)>::empty();
    let p1 = match lookup_kv(m, "HTTP_PROXY"@) {
        Some(v) => insert_kv(p0, "http"@, v),
        None => p0,
    };
    let p2 = match lookup_kv(m, "HTTPS_PROXY"@) {
        Some(v) => insert_kv(p1, "https"@, v),
        None => p1,
    };
    let p3 = match lookup_kv(m, "FTP_PROXY"@) {
        Some(v) => insert_kv(p2, "ftp"@, v),
        None => p2,
    };
    let wl = match lookup_kv(m, "NO_PROXY"@) {
        Some(v) => file_whitelist(v),
        None => Seq::<Seq<char>>::empty(),
    };
    ProxyConfigView { proxies: p3, whitelist: wl, exclude_simple: false }
}

/// What a parsed key/value map resolves to.  `PROXY_ENABLED` is mandatory:
/// `"no"` means proxying is off (absence, not a fault), `"yes"` yields the
/// configuration, anything else or a missing key is an `InvalidConfig`
/// fault.  An enabled map without a single scheme key has no proxy entries
/// and is never surfaced as a success: it resolves to absence.
pub open spec fn config_of_pairs(m: Seq<(Seq<char>, Seq<char>)>) -> Result<
    Option<ProxyConfigView>,
    ProxyError,
> {
    match lookup_kv(m, "PROXY_ENABLED"@) {
        None => Err(ProxyError::InvalidConfig),
        Some(v) => if v == "no"@ {
            Ok(None)
        } else if v == "yes"@ {
            if enabled_config(m).proxies.len() == 0 {
                Ok(None)
            } else {
                Ok(Some(enabled_config(m)))
            }
        } else {
            Err(ProxyError::InvalidConfig)
        },
    }
}

/// The outcome of the file source on snapshot `f`: a missing file is
/// absence, an unreadable file is an I/O fault, contents are parsed and
/// resolved.
pub open spec fn file_source(f: FileSnapshot) -> Result<Option<ProxyConfigView>, ProxyError> {
    match f {
        FileSnapshot::Missing => Ok(None),
        FileSnapshot::Unreadable => Err(ProxyError::Io),
        FileSnapshot::Contents(s) => match pairs_of_contents(s@) {
            Err(e) => Err(e),
            Ok(m) => config_of_pairs(m),
        },
    }
}

/// A successful file outcome always carries at least one proxy entry.
pub proof fn lemma_file_success_nonempty(f: FileSnapshot, c: ProxyConfigView)
    requires
        file_source(f) == Ok::<Option<ProxyConfigView>, ProxyError>(Some(c)),
    ensures
        c.proxies.len() > 0,
{
    match f {
        FileSnapshot::Missing => {},
        FileSnapshot::Unreadable => {},
        FileSnapshot::Contents(s) => {
            match pairs_of_contents(s@) {
                Err(_) => {},
                Ok(m) => {
                    assert(config_of_pairs(m) == Ok::<Option<ProxyConfigView>, ProxyError>(
                        Some(c),
                    ));
                },
            }
        },
    }
}

/// Resolve the proxy configuration from one read of the sysconfig proxy
/// file, handed in as a [`FileSnapshot`].
pub fn get_proxy_config_from_file(file: &FileSnapshot) -> (r: Result<
    Option<ProxyConfig>,
    ProxyError,
>)
    ensures
        crate::outcome_view(r) == file_source(*file),
{
    let contents: &str = match file {
        FileSnapshot::Missing => {
            return Ok(None);
        },
        FileSnapshot::Unreadable => {
            return Err(ProxyError::Io);
        },
        FileSnapshot::Contents(s) => s.as_str(),
    };
    let map = match read_key_value_pairs(contents) {
        Ok(m) => m,
        Err(e) => {
            return Err(e);
        },
    };
    let enabled = match crate::text::assoc_get(&map, "PROXY_ENABLED") {
        Some(v) => v,
        None => {
            return Err(ProxyError::InvalidConfig);
        },
    };
    if str_eq(enabled.as_str(), "no") {
        return Ok(None);
    }
    if !str_eq(enabled.as_str(), "yes") {
        return Err(ProxyError::InvalidConfig);
    }
    let mut proxies: Vec<(String, String)> = Vec::new();
    proof {
        assert(kv_views(proxies@) =~= Seq::<(Seq<char>, Seq<char>)>::empty());
    }
    if let Some(v) = crate::text::assoc_get(&map, "HTTP_PROXY") {
        crate::text::assoc_set(&mut proxies, "http".to_owned(), v);
    }
    if let Some(v) = crate::text::assoc_get(&map, "HTTPS_PROXY") {
        crate::text::assoc_set(&mut proxies, "https".to_owned(), v);
    }
    if let Some(v) = crate::text::assoc_get(&map, "FTP_PROXY") {
        crate::text::assoc_set(&mut proxies, "ftp".to_owned(), v);
    }
    if proxies.len() == 0 {
        // An enabled file without any scheme key configures nothing.
        return Ok(None);
    }
    let whitelist = match crate::text::assoc_get(&map, "NO_PROXY") {
        Some(v) => whitelist_of(v.as_str()),
        None => {
            let w: Vec<String> = Vec::new();
            proof {
                assert(views_of(w@) =~= Seq::<Seq<char>>::empty());
            }
            w
        },
    };
    let config = ProxyConfig { proxies, whitelist, exclude_simple: false };
    proof {
        assert(config@ == enabled_config(kv_views(map@)));
    }
    Ok(Some(config))
}

} // verus!
