//! The exclusion filter: a pure predicate on a relative path and the two
//! configured rule lists.  A path is excluded when any of its components
//! begins with `.` (the hidden-file convention, checked before the
//! configured rules), when its final extension appears in the extension
//! list (bare or dot-prefixed, case-sensitively), or when the path contains
//! a configured directory fragment followed by a separator — a substring
//! match, so a fragment `build` also hits a component `rebuild` — or ends
//! with the fragment.

use vstd::prelude::*;
use vstd::string::StrSliceExecFns;

verus! {

/// Directory fragments may be written with either separator; the filter
/// reads `\` as `/`.
pub open spec fn norm_char(c: char) -> char {
    if c == '\\' {
        '/'
    } else {
        c
    }
}

/// A fragment with its separators normalized to `/`.
pub open spec fn norm_frag(f: Seq<char>) -> Seq<char> {
    Seq::new(f.len(), |i: int| norm_char(f[i]))
}

/// Some component of the path begins with `.`.
pub open spec fn is_hidden(p: Seq<char>) -> bool {
    exists|i: int| 0 <= i < p.len() && #[trigger] p[i] == '.' && (i == 0 || p[i - 1] == '/')
}

/// The needle occurs in `p` starting at position `i`.
pub open spec fn matches_at(p: Seq<char>, needle: Seq<char>, i: int) -> bool {
    0 <= i && i + needle.len() <= p.len() && p.subrange(i, i + needle.len()) == needle
}

/// The needle occurs somewhere in `p`.
pub open spec fn contains_seq(p: Seq<char>, needle: Seq<char>) -> bool {
    exists|i: int| matches_at(p, needle, i)
}

/// `p` ends with the needle.
pub open spec fn ends_with(p: Seq<char>, needle: Seq<char>) -> bool {
    needle.len() <= p.len() && p.subrange(p.len() - needle.len(), p.len() as int) == needle
}

/// One directory fragment hits the path: the normalized fragment followed
/// by a separator occurs in the path, or the path ends with the fragment.
pub open spec fn dir_fragment_hits(p: Seq<char>, frag: Seq<char>) -> bool {
    contains_seq(p, norm_frag(frag).push('/')) || ends_with(p, norm_frag(frag))
}

/// Some configured directory fragment hits the path.
pub open spec fn dir_excluded(p: Seq<char>, dirs: Seq<Seq<char>>) -> bool {
    exists|k: int| 0 <= k < dirs.len() && dir_fragment_hits(p, dirs[k])
}

/// Position `j` holds the dot that starts the path's final extension: a `.`
/// in the final component with no later `.`.
pub open spec fn ext_start(p: Seq<char>, j: int) -> bool {
    0 <= j < p.len() && p[j] == '.' && (forall|k: int|
        j < k < p.len() ==> p[k] != '.' && p[k] != '/')
}

/// The path's final component has an extension.
pub open spec fn has_ext(p: Seq<char>) -> bool {
    exists|j: int| ext_start(p, j)
}

/// The path's final extension: everything after the last `.` of the final
/// component.
pub open spec fn the_ext(p: Seq<char>) -> Seq<char> {
    p.subrange((choose|j: int| ext_start(p, j)) + 1, p.len() as int)
}

/// An extension rule matches the extension written bare or dot-prefixed.
pub open spec fn rule_matches_ext(rule: Seq<char>, ext: Seq<char>) -> bool {
    rule == ext || rule == seq!['.'] + ext
}

/// Some configured extension rule matches the path's final extension.
pub open spec fn ext_excluded(p: Seq<char>, exts: Seq<Seq<char>>) -> bool {
    has_ext(p) && exists|k: int| 0 <= k < exts.len() && rule_matches_ext(exts[k], the_ext(p))
}

/// An absent rule list excludes nothing.
pub open spec fn rules_view(rules: Option<&Vec<String>>) -> Seq<Seq<char>> {
    match rules {
        Some(v) => v.deep_view(),
        None => Seq::empty(),
    }
}

/// The whole filter: hidden, or by extension, or by directory fragment.
pub open spec fn spec_excluded(p: Seq<char>, exts: Seq<Seq<char>>, dirs: Seq<Seq<char>>) -> bool {
    is_hidden(p) || ext_excluded(p, exts) || dir_excluded(p, dirs)
}

/// There is at most one extension start.
proof fn lemma_ext_start_unique(p: Seq<char>, j1: int, j2: int)
    requires
        ext_start(p, j1),
        ext_start(p, j2),
    ensures
        j1 == j2,
{
    if j1 < j2 {
        assert(p[j2] != '.');
    } else if j2 < j1 {
        assert(p[j1] != '.');
    }
}

/// Law: a hidden path is excluded whatever the configured rules say.
pub proof fn lemma_hidden_excluded(p: Seq<char>, exts: Seq<Seq<char>>, dirs: Seq<Seq<char>>)
    requires
        is_hidden(p),
    ensures
        spec_excluded(p, exts, dirs),
{
}

/// Law: a path lying under a directory component equal to a configured
/// fragment (written without backslashes) is excluded, whatever the
/// extension rules and the file's content.
pub proof fn lemma_dir_component_excluded(
    prefix: Seq<char>,
    frag: Seq<char>,
    rest: Seq<char>,
    p: Seq<char>,
    exts: Seq<Seq<char>>,
    dirs: Seq<Seq<char>>,
    k: int,
)
    requires
        0 <= k < dirs.len(),
        dirs[k] == frag,
        norm_frag(frag) == frag,
        p == prefix + frag + seq!['/'] + rest,
    ensures
        spec_excluded(p, exts, dirs),
{
    let needle = norm_frag(frag).push('/');
    let i = prefix.len() as int;
    assert(p.subrange(i, i + needle.len()) =~= needle);
    assert(matches_at(p, needle, i));
    assert(dir_fragment_hits(p, frag));
}

/// Is any component of the path hidden?
fn has_hidden_component(path: &str) -> (r: bool)
    ensures
        r == is_hidden(path@),
{
    let n = path.unicode_len();
    let mut i: usize = 0;
    while i < n
        invariant
            n == path@.len(),
            i <= n,
            forall|k: int|
                0 <= k < i ==> !(#[trigger] path@[k] == '.' && (k == 0 || path@[k - 1] == '/')),
        decreases n - i,
    {
        let c = path.get_char(i);
        if c == '.' {
            if i == 0 {
                return true;
            }
            let prev = path.get_char(i - 1);
            if prev == '/' {
                return true;
            }
        }
        i += 1;
    }
    false
}

/// Does the rule match the path's extension, which starts right after the
/// dot at position `j`?
fn rule_matches_ext_at(path: &str, j: usize, rule: &str) -> (r: bool)
    requires
        j < path@.len(),
    ensures
        r == rule_matches_ext(rule@, path@.subrange(j + 1, path@.len() as int)),
{
    let n = path.unicode_len();
    let m = n - (j + 1);
    let ghost ext = path@.subrange(j + 1, path@.len() as int);
    let rl = rule.unicode_len();
    if rl == m {
        // bare form: rule == ext
        let mut t: usize = 0;
        while t < m
            invariant
                n == path@.len(),
                rl == rule@.len(),
                j < n,
                m == n - (j + 1),
                rl == m,
                t <= m,
                ext == path@.subrange(j + 1, path@.len() as int),
                forall|u: int| 0 <= u < t ==> rule@[u] == ext[u],
            decreases m - t,
        {
            let cr = rule.get_char(t);
            let cp = path.get_char(j + 1 + t);
            proof {
                assert(ext[t as int] == path@[j + 1 + t]);
            }
            if cr != cp {
                proof {
                    if rule@ == ext {
                        assert(rule@[t as int] == ext[t as int]);
                    }
                    if rule@ == seq!['.'] + ext {
                        assert(rule@.len() == 1 + ext.len());
                    }
                }
                return false;
            }
            t += 1;
        }
        proof {
            assert(rule@ =~= ext);
        }
        true
    } else if rl == m + 1 {
        // dot-prefixed form: rule == "." + ext
        let c0 = rule.get_char(0);
        if c0 != '.' {
            proof {
                if rule@ == seq!['.'] + ext {
                    assert(rule@[0] == '.');
                }
                if rule@ == ext {
                    assert(rule@.len() == ext.len());
                }
            }
            return false;
        }
        let mut t: usize = 0;
        while t < m
            invariant
                n == path@.len(),
                rl == rule@.len(),
                j < n,
                m == n - (j + 1),
                rl == m + 1,
                rule@[0] == '.',
                t <= m,
                ext == path@.subrange(j + 1, path@.len() as int),
                forall|u: int| 0 <= u < t ==> rule@[u + 1] == ext[u],
            decreases m - t,
        {
            let cr = rule.get_char(t + 1);
            let cp = path.get_char(j + 1 + t);
            proof {
                assert(ext[t as int] == path@[j + 1 + t]);
            }
            if cr != cp {
                proof {
                    if rule@ == seq!['.'] + ext {
                        assert(rule@[t + 1 as int] == (seq!['.'] + ext)[t + 1 as int]);
                    }
                    if rule@ == ext {
                        assert(rule@.len() == ext.len());
                    }
                }
                return false;
            }
            t += 1;
        }
        proof {
            assert(rule@ =~= seq!['.'] + ext);
        }
        true
    } else {
        proof {
            if rule@ == ext {
                assert(rule@.len() == ext.len());
            }
            if rule@ == seq!['.'] + ext {
                assert(rule@.len() == 1 + ext.len());
            }
        }
        false
    }
}

/// Does some configured extension rule hit the path?
fn ext_rule_hits(path: &str, exts: &Vec<String>) -> (r: bool)
    ensures
        r == ext_excluded(path@, exts.deep_view()),
{
    let n = path.unicode_len();
    // Scan backwards for the dot that starts the final extension.
    let mut k: usize = n;
    while k > 0
        invariant
            n == path@.len(),
            k <= n,
            forall|t: int| k <= t < n ==> path@[t] != '.' && path@[t] != '/',
        decreases k,
    {
        let c = path.get_char(k - 1);
        if c == '/' {
            proof {
                assert forall|j: int| !ext_start(path@, j) by {
                    if 0 <= j < path@.len() && path@[j] == '.' {
                        assert(j < k - 1);
                        assert(path@[k - 1] == '/');
                    }
                }
            }
            return false;
        }
        if c == '.' {
            // Found the extension start at k - 1.
            let ghost j0 = k - 1;
            proof {
                assert(ext_start(path@, j0 as int));
                let jc = choose|j: int| ext_start(path@, j);
                lemma_ext_start_unique(path@, jc, j0 as int);
                assert(the_ext(path@) == path@.subrange(
                    j0 as int + 1,
                    path@.len() as int,
                ));
            }
            let mut e: usize = 0;
            while e < exts.len()
                invariant
                    n == path@.len(),
                    k >= 1,
                    k <= n,
                    j0 == k - 1,
                    ext_start(path@, j0 as int),
                    the_ext(path@) == path@.subrange(j0 as int + 1, path@.len() as int),
                    e <= exts@.len(),
                    forall|u: int|
                        0 <= u < e ==> !rule_matches_ext(
                            exts.deep_view()[u],
                            the_ext(path@),
                        ),
                decreases exts@.len() - e,
            {
                let hit = rule_matches_ext_at(path, k - 1, exts[e].as_str());
                proof {
                    assert(exts.deep_view()[e as int] == exts@[e as int]@);
                }
                if hit {
                    return true;
                }
                e += 1;
            }
            return false;
        }
        k -= 1;
    }
    proof {
        assert forall|j: int| !ext_start(path@, j) by {
            if 0 <= j < path@.len() {
                assert(path@[j] != '.');
            }
        }
    }
    false
}

/// Normalizes one fragment character.
fn norm_char_exec(c: char) -> (r: char)
    ensures
        r == norm_char(c),
{
    if c == '\\' {
        '/'
    } else {
        c
    }
}

/// Does the normalized fragment occur in the path starting at `i`?
fn frag_matches_at(path: &str, frag: &str, i: usize) -> (r: bool)
    requires
        i + frag@.len() <= path@.len(),
    ensures
        r == (path@.subrange(i as int, i + frag@.len()) == norm_frag(frag@)),
{
    let n = path.unicode_len();
    let fl = frag.unicode_len();
    let ghost seg = path@.subrange(i as int, i + frag@.len());
    let mut t: usize = 0;
    while t < fl
        invariant
            n == path@.len(),
            fl == frag@.len(),
            i + fl <= path@.len(),
            seg == path@.subrange(i as int, i + frag@.len()),
            t <= fl,
            forall|u: int| 0 <= u < t ==> seg[u] == norm_frag(frag@)[u],
        decreases fl - t,
    {
        let cp = path.get_char(i + t);
        let cf = norm_char_exec(frag.get_char(t));
        proof {
            assert(seg[t as int] == path@[i + t]);
            assert(norm_frag(frag@)[t as int] == norm_char(frag@[t as int]));
        }
        if cp != cf {
            proof {
                if seg == norm_frag(frag@) {
                    assert(seg[t as int] == norm_frag(frag@)[t as int]);
                }
            }
            return false;
        }
        t += 1;
    }
    proof {
        assert(seg =~= norm_frag(frag@));
    }
    true
}

/// Does this one fragment hit the path?
fn frag_hits(path: &str, frag: &str) -> (r: bool)
    ensures
        r == dir_fragment_hits(path@, frag@),
{
    let n = path.unicode_len();
    let fl = frag.unicode_len();
    let ghost needle = norm_frag(frag@).push('/');
    // Suffix form first: the path ends with the fragment.
    if fl <= n {
        if frag_matches_at(path, frag, n - fl) {
            proof {
                assert(ends_with(path@, norm_frag(frag@)));
            }
            return true;
        }
    }
    // Substring form: fragment followed by a separator.
    if fl < n {
        let mut i: usize = 0;
        while i < n - fl
            invariant
                n == path@.len(),
                fl == frag@.len(),
                fl < n,
                needle == norm_frag(frag@).push('/'),
                i <= n - fl,
                forall|x: int| 0 <= x < i ==> !matches_at(path@, needle, x),
            decreases n - fl - i,
        {
            let seg_hit = frag_matches_at(path, frag, i);
            let mut full_hit = false;
            if seg_hit {
                let sep = path.get_char(i + fl);
                if sep == '/' {
                    full_hit = true;
                }
            }
            if full_hit {
                proof {
                    assert(path@.subrange(i as int, i + needle.len()) =~= needle);
                    assert(matches_at(path@, needle, i as int));
                }
                return true;
            }
            proof {
                assert(!matches_at(path@, needle, i as int)) by {
                    if matches_at(path@, needle, i as int) {
                        let sub = path@.subrange(i as int, i + needle.len());
                        assert(sub == needle);
                        assert forall|u: int|
                            0 <= u < fl implies path@.subrange(
                                i as int,
                                i + frag@.len(),
                            )[u] == norm_frag(frag@)[u] by {
                            assert(sub[u] == needle[u]);
                        }
                        assert(path@.subrange(i as int, i + frag@.len()) =~= norm_frag(
                            frag@,
                        ));
                        assert(sub[fl as int] == needle[fl as int]);
                        assert(path@[i + fl] == '/');
                    }
                }
            }
            i += 1;
        }
        proof {
            assert(!contains_seq(path@, needle)) by {
                if contains_seq(path@, needle) {
                    let x = choose|x: int| matches_at(path@, needle, x);
                    assert(x + needle.len() <= n);
                    assert(x < n - fl);
                }
            }
        }
    } else {
        proof {
            assert(!contains_seq(path@, needle)) by {
                if contains_seq(path@, needle) {
                    let x = choose|x: int| matches_at(path@, needle, x);
                    assert(x + needle.len() <= n);
                }
            }
        }
    }
    proof {
        assert(!ends_with(path@, norm_frag(frag@)) || fl <= n);
    }
    false
}

/// Does some configured directory fragment hit the path?
fn dir_rule_hits(path: &str, dirs: &Vec<String>) -> (r: bool)
    ensures
        r == dir_excluded(path@, dirs.deep_view()),
{
    let mut k: usize = 0;
    while k < dirs.len()
        invariant
            k <= dirs@.len(),
            forall|u: int| 0 <= u < k ==> !dir_fragment_hits(path@, dirs.deep_view()[u]),
        decreases dirs@.len() - k,
    {
        let hit = frag_hits(path, dirs[k].as_str());
        proof {
            assert(dirs.deep_view()[k as int] == dirs@[k as int]@);
        }
        if hit {
            return true;
        }
        k += 1;
    }
    false
}

/// The exclusion filter.  A path is excluded when one of its components is
/// hidden, when its final extension appears in the extension rules, or when
/// a configured directory fragment hits it.
pub fn should_exclude(
    path: &str,
    exclude_extensions: Option<&Vec<String>>,
    exclude_dirs: Option<&Vec<String>>,
) -> (r: bool)
    ensures
        r == spec_excluded(path@, rules_view(exclude_extensions), rules_view(exclude_dirs)),
{
    if has_hidden_component(path) {
        return true;
    }
    if let Some(exts) = exclude_extensions {
        if ext_rule_hits(path, exts) {
            return true;
        }
    }
    if let Some(dirs) = exclude_dirs {
        if dir_rule_hits(path, dirs) {
            return true;
        }
    }
    proof {
        let ghost ev = rules_view(exclude_extensions);
        let ghost dv = rules_view(exclude_dirs);
        if exclude_extensions is None {
            assert(!ext_excluded(path@, ev));
        }
        if exclude_dirs is None {
            assert(!dir_excluded(path@, dv));
        }
    }
    false
}

} // verus!
