//! The environment-variable source: every variable whose name ends in
//! `_PROXY` (case-insensitively) configures the scheme named before the
//! suffix, and `NO_PROXY` holds the comma-separated bypass whitelist.
//!
//! Reading the live process environment is a collaborator's job; this module
//! receives a snapshot of name/value pairs and does everything else.

use vstd::prelude::*;
use vstd::string::*;

use crate::text::{
    ends_with, ends_with_str, insert_kv, kv_views, lower_of, lowercase, split_on, split_str,
    str_eq, trim, trim_str, views_of,
};
use crate::{ProxyConfig, ProxyConfigView};

verus! {

/// The whitelist entry a single comma-separated piece contributes: its
/// trimmed, lowercased text, or nothing when it trims to empty.
pub open spec fn piece_entry(p: Seq<char>) -> Seq<Seq<char>> {
    if trim(p).len() > 0 {
        seq![lower_of(trim(p))]
    } else {
        Seq::empty()
    }
}

/// The whitelist entries of a `NO_PROXY` environment value: comma-separated
/// pieces, trimmed and lowercased, empty pieces dropped.
pub open spec fn env_whitelist_of(pieces: Seq<Seq<char>>) -> Seq<Seq<char>>
    decreases pieces.len(),
{
    if pieces.len() == 0 {
        Seq::empty()
    } else {
        env_whitelist_of(pieces.drop_last()) + piece_entry(pieces.last())
    }
}

/// One environment pair folded into the accumulating configuration.  Only
/// names ending in `_proxy` (after lowercasing) contribute; the token before
/// the suffix either names a scheme or, as `no`, extends the whitelist.
pub open spec fn env_step(c: ProxyConfigView, name: Seq<char>, value: Seq<char>) -> ProxyConfigView {
    let lk = lower_of(name);
    if ends_with(lk, "_proxy"@) {
        let scheme = lk.subrange(0, lk.len() - 6);
        if scheme == "no"@ {
            ProxyConfigView {
                proxies: c.proxies,
                whitelist: c.whitelist + env_whitelist_of(split_on(value, ',')),
                exclude_simple: c.exclude_simple,
            }
        } else {
            ProxyConfigView {
                proxies: insert_kv(c.proxies, scheme, value),
                whitelist: c.whitelist,
                exclude_simple: c.exclude_simple,
            }
        }
    } else {
        c
    }
}

/// The configuration accumulated over an environment snapshot, in order:
/// later variables overwrite earlier ones on the same scheme.
pub open spec fn env_fold(vars: Seq<(Seq<char>, Seq<char>)>) -> ProxyConfigView
    decreases vars.len(),
{
    if vars.len() == 0 {
        ProxyConfigView {
            proxies: Seq::empty(),
            whitelist: Seq::empty(),
            exclude_simple: false,
        }
    } else {
        env_step(env_fold(vars.drop_last()), vars.last().0, vars.last().1)
    }
}

/// The outcome of the environment source: absent when no variable set a
/// proxy endpoint, even if `NO_PROXY` filled the whitelist.
pub open spec fn env_source(vars: Seq<(Seq<char>, Seq<char>)>) -> Option<ProxyConfigView> {
    let c = env_fold(vars);
    if c.proxies.len() == 0 {
        None
    } else {
        Some(c)
    }
}

/// A successful environment outcome always carries at least one proxy entry.
pub proof fn lemma_env_success_nonempty(vars: Seq<(Seq<char>, Seq<char>)>, c: ProxyConfigView)
    requires
        env_source(vars) == Some(c),
    ensures
        c.proxies.len() > 0,
{
}

/// Neither source of this fold ever sets the dotless-bypass flag.
proof fn lemma_env_fold_exclude(vars: Seq<(Seq<char>, Seq<char>)>)
    ensures
        !env_fold(vars).exclude_simple,
    decreases vars.len(),
{
    if vars.len() > 0 {
        lemma_env_fold_exclude(vars.drop_last());
    }
}

/// Resolve the proxy configuration from a snapshot of environment
/// name/value pairs.
pub fn get_proxy_config(vars: &Vec<(String, String)>) -> (r: Option<ProxyConfig>)
    ensures
        match r {
            Some(c) => env_source(kv_views(vars@)) == Some(c@),
            None => env_source(kv_views(vars@)) == None::<ProxyConfigView>,
        },
{
    let ghost vs = kv_views(vars@);
    let mut proxies: Vec<(String, String)> = Vec::new();
    let mut whitelist: Vec<String> = Vec::new();
    let n = vars.len();
    proof {
        assert(vs.take(0) =~= Seq::<(Seq<char>, Seq<char>)>::empty());
        assert(kv_views(proxies@) =~= Seq::<(Seq<char>, Seq<char>)>::empty());
        assert(views_of(whitelist@) =~= Seq::<Seq<char>>::empty());
    }
    let mut i: usize = 0;
    while i < n
        invariant
            0 <= i <= n,
            n == vars@.len(),
            vs == kv_views(vars@),
            vs.len() == n,
            kv_views(proxies@) == env_fold(vs.take(i as int)).proxies,
            views_of(whitelist@) == env_fold(vs.take(i as int)).whitelist,
        decreases n - i,
    {
        proof {
            assert(vs[i as int] == (vars@[i as int].0@, vars@[i as int].1@));
            assert(vs.take(i + 1).drop_last() =~= vs.take(i as int));
            assert(vs.take(i + 1).last() == vs[i as int]);
        }
        let lk = lowercase(vars[i].0.as_str());
        if ends_with_str(lk.as_str(), "_proxy") {
            let nlk = lk.as_str().unicode_len();
            proof {
                reveal_strlit("_proxy");
                assert("_proxy"@.len() == 6);
            }
            let scheme = lk.as_str().substring_char(0, nlk - 6);
            if str_eq(scheme, "no") {
                let pieces = split_str(vars[i].1.as_str(), ',');
                let m = pieces.len();
                let ghost pvs = split_on(vars@[i as int].1@, ',');
                let ghost base = views_of(whitelist@);
                proof {
                    assert(pvs.take(0) =~= Seq::<Seq<char>>::empty());
                }
                let mut k: usize = 0;
                while k < m
                    invariant
                        0 <= k <= m,
                        m == pieces@.len(),
                        views_of(pieces@) == pvs,
                        views_of(whitelist@) == base + env_whitelist_of(pvs.take(k as int)),
                    decreases m - k,
                {
                    proof {
                        assert(views_of(pieces@)[k as int] == pieces@[k as int]@);
                        assert(pvs.take(k + 1).drop_last() =~= pvs.take(k as int));
                        assert(pvs.take(k + 1).last() == pvs[k as int]);
                    }
                    let t = trim_str(pieces[k].as_str());
                    if !t.is_empty() {
                        let ghost prev = whitelist@;
                        whitelist.push(lowercase(t));
                        proof {
                            assert(views_of(whitelist@) =~= views_of(prev).push(
                                lower_of(trim(pvs[k as int])),
                            ));
                            assert(base + env_whitelist_of(pvs.take(k + 1)) =~= views_of(
                                whitelist@,
                            ));
                        }
                    } else {
                        proof {
                            assert(base + env_whitelist_of(pvs.take(k + 1)) =~= views_of(
                                whitelist@,
                            ));
                        }
                    }
                    k = k + 1;
                }
                proof {
                    assert(pvs.take(m as int) =~= pvs);
                    assert(views_of(whitelist@) == env_fold(vs.take(i + 1)).whitelist);
                    assert(kv_views(proxies@) == env_fold(vs.take(i + 1)).proxies);
                }
            } else {
                crate::text::assoc_set(&mut proxies, scheme.to_owned(), vars[i].1.clone());
                proof {
                    assert(kv_views(proxies@) == env_fold(vs.take(i + 1)).proxies);
                    assert(views_of(whitelist@) == env_fold(vs.take(i + 1)).whitelist);
                }
            }
        } else {
            proof {
                assert(env_fold(vs.take(i + 1)) == env_fold(vs.take(i as int)));
            }
        }
        i = i + 1;
    }
    proof {
        assert(vs.take(n as int) =~= vs);
    }
    if proxies.len() == 0 {
        return None;
    }
    let config = ProxyConfig { proxies, whitelist, exclude_simple: false };
    proof {
        lemma_env_fold_exclude(vs);
        assert(config@ == env_fold(vs));
    }
    Some(config)
}

} // verus!
