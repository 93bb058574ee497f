//! Pathname handling: trimming, reserved-character sanitization,
//! splitting into components, and lexical containment under the
//! destination root.

use vstd::prelude::*;

verus! {

/// The characters some filesystems refuse in file names; the pathname
/// sanitizer replaces each of them with an underscore.
pub open spec fn is_reserved_char(c: char) -> bool {
    c == '<' || c == '>' || c == ':' || c == '"' || c == '|' || c == '?' || c == '*'
}

/// Replacement of every reserved character by an underscore, leaving
/// every other character in place.
pub open spec fn sanitize_spec(s: Seq<char>) -> Seq<char> {
    Seq::new(s.len(), |i: int| if is_reserved_char(s[i]) { '_' } else { s[i] })
}

/// Relies on String::push: appends exactly the given character.
#[verifier::external_body]
fn push_char(s: &mut String, c: char)
    ensures
        final(s)@ == old(s)@.push(c),
{
    s.push(c)
}

/// Replaces each character of the reserved class `< > : " | ? *` with an
/// underscore, as some platforms' filesystems require.
pub fn sanitize_pathname(s: &str) -> (r: String)
    ensures
        r@ == sanitize_spec(s@),
{
    let n: usize = s.unicode_len();
    let mut r = String::new();
    let mut i: usize = 0;
    while i < n
        invariant
            i <= n,
            n == s@.len(),
            r@ == sanitize_spec(s@.subrange(0, i as int)),
        decreases n - i,
    {
        let c = s.get_char(i);
        let out = if c == '<' || c == '>' || c == ':' || c == '"' || c == '|' || c == '?'
            || c == '*' {
            '_'
        } else {
            c
        };
        push_char(&mut r, out);
        proof {
            assert(sanitize_spec(s@.subrange(0, i + 1)) =~= sanitize_spec(
                s@.subrange(0, i as int),
            ).push(out));
        }
        i = i + 1;
    }
    proof {
        assert(s@.subrange(0, n as int) =~= s@);
    }
    r
}

/// The Unicode white-space characters, the set `str::trim` removes.
pub open spec fn is_space_char(c: char) -> bool {
    c == '\u{0009}' || c == '\u{000A}' || c == '\u{000B}' || c == '\u{000C}' || c == '\u{000D}'
        || c == '\u{0020}' || c == '\u{0085}' || c == '\u{00A0}' || c == '\u{1680}'
        || c == '\u{2000}' || c == '\u{2001}' || c == '\u{2002}' || c == '\u{2003}'
        || c == '\u{2004}' || c == '\u{2005}' || c == '\u{2006}' || c == '\u{2007}'
        || c == '\u{2008}' || c == '\u{2009}' || c == '\u{200A}' || c == '\u{2028}'
        || c == '\u{2029}' || c == '\u{202F}' || c == '\u{205F}' || c == '\u{3000}'
}

/// The sequence with its longest all-white-space prefix removed.
pub open spec fn trim_start_spec(s: Seq<char>) -> Seq<char>
    decreases s.len(),
{
    if s.len() > 0 && is_space_char(s[0]) {
        trim_start_spec(s.drop_first())
    } else {
        s
    }
}

/// The sequence with its longest all-white-space suffix removed.
pub open spec fn trim_end_spec(s: Seq<char>) -> Seq<char>
    decreases s.len(),
{
    if s.len() > 0 && is_space_char(s.last()) {
        trim_end_spec(s.drop_last())
    } else {
        s
    }
}

/// The sequence with surrounding white space removed.
pub open spec fn trim_spec(s: Seq<char>) -> Seq<char> {
    trim_end_spec(trim_start_spec(s))
}

/// Removes surrounding white space from a pathname, as the raw marker
/// file contents carry a trailing newline.
pub fn trim_pathname<'a>(s: &'a str) -> (r: &'a str)
    ensures
        r@ == trim_spec(s@),
{
    let n: usize = s.unicode_len();
    proof {
        assert(s@.subrange(0, n as int) =~= s@);
    }
    let mut lo: usize = 0;
    while lo < n && is_space_exec(s.get_char(lo))
        invariant
            lo <= n,
            n == s@.len(),
            trim_start_spec(s@) == trim_start_spec(s@.subrange(lo as int, n as int)),
        decreases n - lo,
    {
        proof {
            assert(s@.subrange(lo as int, n as int).drop_first() =~= s@.subrange(
                lo + 1,
                n as int,
            ));
        }
        lo = lo + 1;
    }
    proof {
        if lo < n {
            assert(trim_start_spec(s@) == s@.subrange(lo as int, n as int));
        } else {
            assert(s@.subrange(lo as int, n as int).len() == 0);
        }
    }
    let mut hi: usize = n;
    while hi > lo && is_space_exec(s.get_char(hi - 1))
        invariant
            lo <= hi <= n,
            n == s@.len(),
            trim_start_spec(s@) == trim_start_spec(s@.subrange(lo as int, n as int)),
            trim_end_spec(s@.subrange(lo as int, n as int)) == trim_end_spec(
                s@.subrange(lo as int, hi as int),
            ),
        decreases hi,
    {
        proof {
            assert(s@.subrange(lo as int, hi as int).drop_last() =~= s@.subrange(
                lo as int,
                hi - 1,
            ));
        }
        hi = hi - 1;
    }
    proof {
        if hi > lo {
            assert(trim_end_spec(s@.subrange(lo as int, hi as int)) == s@.subrange(
                lo as int,
                hi as int,
            ));
        } else {
            assert(s@.subrange(lo as int, hi as int).len() == 0);
        }
        assert(trim_spec(s@) == s@.subrange(lo as int, hi as int));
    }
    s.substring_char(lo, hi)
}

/// Whether the character is in the Unicode white-space set.
fn is_space_exec(c: char) -> (r: bool)
    ensures
        r == is_space_char(c),
{
    c == '\u{0009}' || c == '\u{000A}' || c == '\u{000B}' || c == '\u{000C}' || c == '\u{000D}'
        || c == '\u{0020}' || c == '\u{0085}' || c == '\u{00A0}' || c == '\u{1680}'
        || c == '\u{2000}' || c == '\u{2001}' || c == '\u{2002}' || c == '\u{2003}'
        || c == '\u{2004}' || c == '\u{2005}' || c == '\u{2006}' || c == '\u{2007}'
        || c == '\u{2008}' || c == '\u{2009}' || c == '\u{200A}' || c == '\u{2028}'
        || c == '\u{2029}' || c == '\u{202F}' || c == '\u{205F}' || c == '\u{3000}'
}

/// The components of a slash-separated path: the separators are
/// dropped and the pieces between them are kept, empty pieces included.
pub open spec fn split_slash(s: Seq<char>) -> Seq<Seq<char>>
    decreases s.len(),
{
    if s.len() == 0 {
        seq![Seq::<char>::empty()]
    } else if s[0] == '/' {
        seq![Seq::<char>::empty()] + split_slash(s.drop_first())
    } else {
        let rest = split_slash(s.drop_first());
        seq![seq![s[0]] + rest[0]] + rest.drop_first()
    }
}

/// Splitting yields at least one component.
proof fn lemma_split_nonempty(s: Seq<char>)
    ensures
        split_slash(s).len() >= 1,
    decreases s.len(),
{
    if s.len() > 0 {
        lemma_split_nonempty(s.drop_first());
    }
}

/// A sequence without slashes is one single component.
proof fn lemma_split_none(s: Seq<char>)
    requires
        forall|j: int| 0 <= j < s.len() ==> s[j] != '/',
    ensures
        split_slash(s) =~~= seq![s],
    decreases s.len(),
{
    if s.len() > 0 {
        lemma_split_none(s.drop_first());
        lemma_split_nonempty(s.drop_first());
        assert(seq![s[0]] + s.drop_first() =~= s);
    }
}

/// Splitting at the first slash: everything before it is the first
/// component, and the rest splits on its own.
proof fn lemma_split_at(s: Seq<char>, m: int)
    requires
        0 <= m < s.len(),
        s[m] == '/',
        forall|j: int| 0 <= j < m ==> s[j] != '/',
    ensures
        split_slash(s) =~~= seq![s.subrange(0, m)] + split_slash(
            s.subrange(m + 1, s.len() as int),
        ),
    decreases m,
{
    if m == 0 {
        assert(s.drop_first() =~= s.subrange(1, s.len() as int));
    } else {
        let t = s.drop_first();
        lemma_split_at(t, m - 1);
        lemma_split_nonempty(t.subrange(m, t.len() as int));
        assert(seq![s[0]] + t.subrange(0, m - 1) =~= s.subrange(0, m));
        assert(t.subrange(m, t.len() as int) =~= s.subrange(m + 1, s.len() as int));
    }
}

/// Splits a path on `/` into its components, separators dropped.
pub fn split_components(s: &str) -> (r: Vec<String>)
    ensures
        r.deep_view() == split_slash(s@),
{
    let n: usize = s.unicode_len();
    let mut comps: Vec<String> = Vec::new();
    proof {
        assert(s@.subrange(0, n as int) =~= s@);
        assert(comps.deep_view() =~= Seq::<Seq<char>>::empty());
    }
    let mut start: usize = 0;
    let mut i: usize = 0;
    while i < n
        invariant
            start <= i <= n,
            n == s@.len(),
            split_slash(s@) =~~= comps.deep_view() + split_slash(
                s@.subrange(start as int, n as int),
            ),
            forall|j: int| start <= j < i ==> s@[j] != '/',
        decreases n - i,
    {
        if s.get_char(i) == '/' {
            let piece = s.substring_char(start, i);
            let piece_string = String::from_str(piece);
            let ghost before = comps.deep_view();
            comps.push(piece_string);
            proof {
                assert(comps.deep_view() =~= before.push(piece_string.deep_view()));
                let tail = s@.subrange(start as int, n as int);
                lemma_split_at(tail, i - start);
                assert(tail.subrange(0, i - start) =~= s@.subrange(start as int, i as int));
                assert(tail.subrange(i - start + 1, tail.len() as int) =~= s@.subrange(
                    i + 1,
                    n as int,
                ));
            }
            start = i + 1;
        }
        i = i + 1;
    }
    let piece = s.substring_char(start, n);
    let piece_string = String::from_str(piece);
    let ghost before = comps.deep_view();
    comps.push(piece_string);
    proof {
        assert(comps.deep_view() =~= before.push(piece_string.deep_view()));
        lemma_split_none(s@.subrange(start as int, n as int));
    }
    comps
}

/// Lexical normalization of path components, walked left to right with
/// the components kept so far: empty components and `.` are dropped,
/// `..` removes the last kept component, and `..` with nothing left to
/// remove means the path climbs out of the destination root, which is
/// rejected (`None`).
pub open spec fn normalize_from(comps: Seq<Seq<char>>, i: int, kept: Seq<Seq<char>>) -> Option<
    Seq<Seq<char>>,
>
    decreases comps.len() - i,
{
    if i < 0 || i >= comps.len() {
        Some(kept)
    } else {
        let c = comps[i];
        if c.len() == 0 || c == seq!['.'] {
            normalize_from(comps, i + 1, kept)
        } else if c == seq!['.', '.'] {
            if kept.len() == 0 {
                None
            } else {
                normalize_from(comps, i + 1, kept.drop_last())
            }
        } else {
            normalize_from(comps, i + 1, kept.push(c))
        }
    }
}

/// The normalized form of a component list, or `None` where it escapes.
pub open spec fn normalize_components(comps: Seq<Seq<char>>) -> Option<Seq<Seq<char>>> {
    normalize_from(comps, 0, Seq::empty())
}

/// Normalizes path components lexically; `None` means the path climbs
/// out of the destination root through `..`.
pub fn normalize(comps: &Vec<String>) -> (r: Option<Vec<String>>)
    ensures
        match r {
            Some(v) => normalize_components(comps.deep_view()) == Some(v.deep_view()),
            None => normalize_components(comps.deep_view()) is None,
        },
{
    let mut kept: Vec<String> = Vec::new();
    proof {
        assert(kept.deep_view() =~= Seq::<Seq<char>>::empty());
    }
    let n: usize = comps.len();
    let mut i: usize = 0;
    while i < n
        invariant
            i <= n,
            n == comps@.len(),
            normalize_components(comps.deep_view()) == normalize_from(
                comps.deep_view(),
                i as int,
                kept.deep_view(),
            ),
        decreases n - i,
    {
        let c: &str = comps[i].as_str();
        let l: usize = c.unicode_len();
        proof {
            assert(comps.deep_view()[i as int] == comps@[i as int]@);
        }
        if l == 0 {
            proof {
                assert(c@ =~= Seq::<char>::empty());
            }
        } else if l == 1 && c.get_char(0) == '.' {
            proof {
                assert(c@ =~= seq!['.']);
            }
        } else if l == 2 && c.get_char(0) == '.' && c.get_char(1) == '.' {
            proof {
                assert(c@ =~= seq!['.', '.']);
            }
            if kept.len() == 0 {
                proof {
                    assert(kept.deep_view().len() == 0);
                }
                return None;
            }
            let ghost before = kept.deep_view();
            kept.pop();
            proof {
                assert(kept.deep_view() =~= before.drop_last());
            }
        } else {
            proof {
                assert(c@ != Seq::<char>::empty());
                assert(c@ != seq!['.']) by {
                    if c@ == seq!['.'] {
                        assert(c@.len() == 1);
                    }
                }
                assert(c@ != seq!['.', '.']) by {
                    if c@ == seq!['.', '.'] {
                        assert(c@.len() == 2);
                    }
                }
            }
            let piece = String::from_str(c);
            let ghost before = kept.deep_view();
            kept.push(piece);
            proof {
                assert(kept.deep_view() =~= before.push(c@));
            }
        }
        i = i + 1;
    }
    Some(kept)
}

/// The destination-root-relative components an entry's pathname
/// resolves to: the raw marker text trimmed, sanitized where the
/// platform asks for it, split on `/` and normalized lexically.
/// `None` means the pathname leaves the destination root: it is
/// absolute, or climbs out through `..`.
pub open spec fn resolve_spec(raw: Seq<char>, sanitize: bool) -> Option<Seq<Seq<char>>> {
    let s = if sanitize {
        sanitize_spec(trim_spec(raw))
    } else {
        trim_spec(raw)
    };
    if s.len() > 0 && s[0] == '/' {
        None
    } else {
        normalize_components(split_slash(s))
    }
}

/// The sanitized form of the raw pathname, as shown in diagnostics.
pub open spec fn sanitized_form(raw: Seq<char>, sanitize: bool) -> Seq<char> {
    if sanitize {
        sanitize_spec(trim_spec(raw))
    } else {
        trim_spec(raw)
    }
}

/// Resolves a raw pathname to destination-root-relative components,
/// returning the sanitized text as well for diagnostics; `None` means
/// the pathname leaves the destination root.  The lexical check
/// catches plain `..` traversal; it does not see symlinks, a known
/// limitation of this format's handling.
pub fn resolve_pathname(raw: &str, sanitize: bool) -> (r: (String, Option<Vec<String>>))
    ensures
        r.0@ == sanitized_form(raw@, sanitize),
        match r.1 {
            Some(v) => resolve_spec(raw@, sanitize) == Some(v.deep_view()),
            None => resolve_spec(raw@, sanitize) is None,
        },
{
    let trimmed = trim_pathname(raw);
    let cleaned: String = if sanitize {
        sanitize_pathname(trimmed)
    } else {
        String::from_str(trimmed)
    };
    let cs: &str = cleaned.as_str();
    if cs.unicode_len() > 0 && cs.get_char(0) == '/' {
        return (cleaned, None);
    }
    let comps = split_components(cs);
    let resolved = normalize(&comps);
    (cleaned, resolved)
}

/// The path a pathname joins to under the root, as diagnostics show
/// it: the root, a separator and the sanitized text, except that an
/// absolute pathname stands alone, as joining replaces the root then.
pub open spec fn joined_display(root: Seq<char>, s: Seq<char>) -> Seq<char> {
    if s.len() > 0 && s[0] == '/' {
        s
    } else {
        root + seq!['/'] + s
    }
}

/// The string form of a resolved target under the root: the root,
/// then each component behind a separator.
pub open spec fn path_string(root: Seq<char>, comps: Seq<Seq<char>>) -> Seq<char>
    decreases comps.len(),
{
    if comps.len() == 0 {
        root
    } else {
        path_string(root, comps.drop_last()) + seq!['/'] + comps.last()
    }
}

/// The destination root is a prefix of the string form of every
/// resolved target under it: an entry that resolves is written inside
/// the root, one that does not resolve is skipped and writes nothing.
pub proof fn lemma_resolved_under_root(root: Seq<char>, comps: Seq<Seq<char>>)
    ensures
        path_string(root, comps).len() >= root.len(),
        path_string(root, comps).subrange(0, root.len() as int) == root,
    decreases comps.len(),
{
    if comps.len() == 0 {
        assert(root.subrange(0, root.len() as int) =~= root);
    } else {
        lemma_resolved_under_root(root, comps.drop_last());
        let shorter = path_string(root, comps.drop_last());
        assert((shorter + seq!['/'] + comps.last()).subrange(0, root.len() as int)
            =~= shorter.subrange(0, root.len() as int));
    }
}

/// Joins the sanitized pathname text under the root for diagnostics.
pub fn join_for_display(root: &str, s: &str) -> (r: String)
    ensures
        r@ == joined_display(root@, s@),
{
    if s.unicode_len() > 0 && s.get_char(0) == '/' {
        String::from_str(s)
    } else {
        let mut r = root.to_owned();
        r.append("/");
        r.append(s);
        proof {
            reveal_strlit("/");
            assert("/"@ =~= seq!['/']);
        }
        r
    }
}

} // verus!
