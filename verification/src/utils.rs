//! Small shared helpers: joining values into diagnostic strings and a few
//! character-level string utilities.

use vstd::prelude::*;

use crate::locales::Locale;

verus! {

/// The elements joined by the separator: empty for no elements, otherwise
/// the elements with the separator between each adjacent pair.
pub open spec fn join_seqs(parts: Seq<Seq<char>>, sep: Seq<char>) -> Seq<char>
    decreases parts.len(),
{
    if parts.len() == 0 {
        Seq::empty()
    } else if parts.len() == 1 {
        parts[0]
    } else {
        parts[0] + sep + join_seqs(parts.drop_first(), sep)
    }
}

pub(crate) proof fn lemma_join_push(parts: Seq<Seq<char>>, sep: Seq<char>, x: Seq<char>)
    ensures
        join_seqs(parts.push(x), sep) == if parts.len() == 0 {
            x
        } else {
            join_seqs(parts, sep) + sep + x
        },
    decreases parts.len(),
{
    let p = parts.push(x);
    if parts.len() == 0 {
        assert(p.len() == 1);
        assert(p[0] == x);
    } else {
        assert(p.drop_first() =~= parts.drop_first().push(x));
        lemma_join_push(parts.drop_first(), sep, x);
        if parts.len() == 1 {
            assert(parts.drop_first().len() == 0);
            assert(join_seqs(p, sep) == p[0] + sep + join_seqs(p.drop_first(), sep));
            assert(p[0] == parts[0]);
            assert(join_seqs(parts, sep) == parts[0]);
        } else {
            assert(join_seqs(p, sep) == p[0] + sep + join_seqs(p.drop_first(), sep));
            assert(join_seqs(parts, sep) + sep + x == parts[0] + sep + (join_seqs(
                parts.drop_first(),
                sep,
            ) + sep + x)) by {
                assert((parts[0] + sep + join_seqs(parts.drop_first(), sep)) + sep + x =~= parts[0]
                    + sep + (join_seqs(parts.drop_first(), sep) + sep + x));
            }
        }
    }
}

/// Joins string values with a separator.
pub fn values_to_string(values: &Vec<String>, separator: &str) -> (r: String)
    ensures
        r@ == join_seqs(values@.map_values(|s: String| s@), separator@),
{
    let ghost parts = values@.map_values(|s: String| s@);
    let mut out = String::new();
    let n = values.len();
    let mut i: usize = 0;
    while i < n
        invariant
            i <= n,
            n == values.len(),
            parts == values@.map_values(|s: String| s@),
            out@ == join_seqs(parts.take(i as int), separator@),
        decreases n - i,
    {
        proof {
            assert(parts.take(i as int + 1) =~= parts.take(i as int).push(parts[i as int]));
            lemma_join_push(parts.take(i as int), separator@, parts[i as int]);
        }
        if i > 0 {
            out.append(separator);
        }
        out.append(values[i].as_str());
        i += 1;
    }
    proof {
        assert(parts.take(n as int) =~= parts);
    }
    out
}

/// Joins locale tags with a separator.
pub fn locales_to_string(locales: &Vec<Locale>, separator: &str) -> (r: String)
    ensures
        r@ == join_seqs(locales@.map_values(|l: Locale| l@), separator@),
{
    let ghost parts = locales@.map_values(|l: Locale| l@);
    let mut out = String::new();
    let n = locales.len();
    let mut i: usize = 0;
    while i < n
        invariant
            i <= n,
            n == locales.len(),
            parts == locales@.map_values(|l: Locale| l@),
            out@ == join_seqs(parts.take(i as int), separator@),
        decreases n - i,
    {
        proof {
            assert(parts.take(i as int + 1) =~= parts.take(i as int).push(parts[i as int]));
            lemma_join_push(parts.take(i as int), separator@, parts[i as int]);
        }
        if i > 0 {
            out.append(separator);
        }
        out.append(locales[i].tag());
        i += 1;
    }
    proof {
        assert(parts.take(n as int) =~= parts);
    }
    out
}

/// Picks the singular form for exactly one value, the plural form
/// otherwise.
pub fn grammar_number<T, S>(values: &Vec<T>, singular: S, plural: S) -> (r: S)
    ensures
        r == if values.len() == 1 {
            singular
        } else {
            plural
        },
{
    if values.len() == 1 {
        singular
    } else {
        plural
    }
}

/// The diagnostic phrase naming the locales a message speaks of.
pub open spec fn for_locales_spec(tags: Seq<Seq<char>>) -> Seq<char> {
    "for "@ + (if tags.len() == 1 {
        "locale"@
    } else {
        "locales"@
    }) + ": "@ + join_seqs(tags, ", "@)
}

/// Renders `for locale(s): a, b` for a list of locales.
pub fn for_locales(values: &Vec<Locale>) -> (r: String)
    ensures
        r@ == for_locales_spec(values@.map_values(|l: Locale| l@)),
{
    let mut out = String::new();
    out.append("for ");
    out.append(grammar_number(values, "locale", "locales"));
    out.append(": ");
    let joined = locales_to_string(values, ", ");
    out.append(joined.as_str());
    out
}

/// The set of character sequences held by a list of strings.
pub open spec fn strs_set(s: Seq<String>) -> Set<Seq<char>> {
    s.map_values(|x: String| x@).to_set()
}

pub(crate) proof fn lemma_strs_set_push(om: Seq<String>, nm: Seq<String>, x: Seq<char>)
    requires
        nm.len() == om.len() + 1,
        forall|i: int| 0 <= i < om.len() ==> (#[trigger] nm[i])@ == om[i]@,
        nm[nm.len() - 1]@ == x,
    ensures
        strs_set(nm) == strs_set(om).insert(x),
{
    let omm = om.map_values(|s: String| s@);
    let nmm = nm.map_values(|s: String| s@);
    assert(nmm.to_set() =~= omm.to_set().insert(x)) by {
        assert forall|t: Seq<char>| nmm.to_set().contains(t) implies omm.to_set().insert(
            x,
        ).contains(t) by {
            let i = choose|i: int| 0 <= i < nmm.len() && nmm[i] == t;
            if i < omm.len() {
                assert(omm[i] == t);
                assert(omm.contains(t));
            }
        }
        assert forall|t: Seq<char>| omm.to_set().insert(x).contains(t) implies nmm.to_set()
            .contains(t) by {
            if t == x {
                assert(nmm[nmm.len() - 1] == t);
            } else {
                let i = choose|i: int| 0 <= i < omm.len() && omm[i] == t;
                assert(nmm[i] == t);
            }
        }
    }
}

/// Whether the list holds the string.
pub(crate) fn contains_str(v: &Vec<String>, s: &str) -> (r: bool)
    ensures
        r == strs_set(v@).contains(s@),
{
    let n = v.len();
    let mut i: usize = 0;
    while i < n
        invariant
            i <= n,
            n == v.len(),
            forall|k: int| 0 <= k < i ==> (#[trigger] v[k])@ != s@,
        decreases n - i,
    {
        if str_eq(v[i].as_str(), s) {
            proof {
                assert(v@.map_values(|x: String| x@)[i as int] == s@);
            }
            return true;
        }
        i += 1;
    }
    proof {
        if strs_set(v@).contains(s@) {
            let m = v@.map_values(|x: String| x@);
            let i = choose|i: int| 0 <= i < m.len() && m[i] == s@;
            assert(v@[i]@ == s@);
        }
    }
    false
}

/// Appends the string where it is not yet present.
pub(crate) fn push_unique_str(v: &mut Vec<String>, s: &str)
    requires
        old(v)@.map_values(|x: String| x@).no_duplicates(),
    ensures
        strs_set(final (v)@) == strs_set(old(v)@).insert(s@),
        final (v)@.map_values(|x: String| x@).no_duplicates(),
{
    if !contains_str(v, s) {
        v.push(s.to_owned());
        proof {
            lemma_strs_set_push(old(v)@, v@, s@);
            let nm = v@.map_values(|x: String| x@);
            assert(nm.no_duplicates()) by {
                assert forall|i: int, j: int| 0 <= i < j < nm.len() implies nm[i] != nm[j] by {
                    let om = old(v)@.map_values(|x: String| x@);
                    if j == nm.len() - 1 {
                        assert(nm[j] == s@);
                        assert(om[i] == nm[i]);
                        assert(strs_set(old(v)@).contains(nm[i])) by {
                            assert(om.contains(nm[i]));
                        }
                    } else {
                        assert(nm[i] == om[i]);
                        assert(nm[j] == om[j]);
                    }
                }
            }
        }
    } else {
        proof {
            assert(strs_set(v@) =~= strs_set(v@).insert(s@));
        }
    }
}

/// Relies on `str`'s `PartialEq`: equality of the character sequences.
#[verifier::external_body]
pub(crate) fn str_eq(a: &str, b: &str) -> (r: bool)
    ensures
        r == (a@ == b@),
{
    a == b
}

/// Whether the name is marked private: its first character is `_`.
pub(crate) fn has_private_prefix(s: &str) -> (r: bool)
    ensures
        r == (s@.len() > 0 && s@[0] == '_'),
{
    let n = s.unicode_len();
    if n == 0 {
        false
    } else {
        s.get_char(0) == '_'
    }
}

/// The stem of a resource file name: the name without its `.ftl` extension,
/// or nothing where the extension is missing.
pub open spec fn resource_stem(name: Seq<char>) -> Option<Seq<char>> {
    if name.len() > 4 && name.subrange(name.len() - 4, name.len() as int) == ".ftl"@ {
        Some(name.subrange(0, name.len() - 4))
    } else {
        None
    }
}

/// Splits a resource file name into its stem, recognizing only the `.ftl`
/// extension; a hidden file whose whole name is the extension has no stem
/// and is ignored.
pub(crate) fn file_stem(name: &str) -> (r: Option<String>)
    ensures
        r is Some <==> resource_stem(name@) is Some,
        r matches Some(s) ==> Some(s@) == resource_stem(name@),
{
    proof {
        reveal_strlit(".ftl");
    }
    let n = name.unicode_len();
    if n <= 4 {
        return None;
    }
    if name.get_char(n - 4) == '.' && name.get_char(n - 3) == 'f' && name.get_char(n - 2) == 't'
        && name.get_char(n - 1) == 'l' {
        proof {
            assert(name@.subrange(n as int - 4, n as int) =~= ".ftl"@);
        }
        let stem = name.substring_char(0, n - 4);
        Some(stem.to_owned())
    } else {
        proof {
            assert(name@.subrange(n as int - 4, n as int) != ".ftl"@) by {
                if name@.subrange(n as int - 4, n as int) == ".ftl"@ {
                    let sub = name@.subrange(n as int - 4, n as int);
                    assert(name@[n as int - 4] == sub[0] && sub[0] == '.');
                    assert(name@[n as int - 3] == sub[1] && sub[1] == 'f');
                    assert(name@[n as int - 2] == sub[2] && sub[2] == 't');
                    assert(name@[n as int - 1] == sub[3] && sub[3] == 'l');
                }
            }
        }
        None
    }
}

/// The normalized form of a relative path: its segments joined with
/// slashes, as catalog names are written.
pub fn normalized_path(segments: &Vec<String>) -> (r: String)
    ensures
        r@ == join_seqs(segments@.map_values(|s: String| s@), "/"@),
{
    values_to_string(segments, "/")
}

/// A string split at every slash: the path segments of a normalized
/// catalog name.
pub open spec fn split_on_slash(s: Seq<char>) -> Seq<Seq<char>>
    decreases s.len(),
{
    let i = first_slash(s, 0);
    if 0 <= i < s.len() {
        seq![s.subrange(0, i)] + split_on_slash(s.subrange(i + 1, s.len() as int))
    } else {
        seq![s]
    }
}

/// The first index at or after `from` holding a slash, or the length.
pub open spec fn first_slash(s: Seq<char>, from: int) -> int
    decreases s.len() - from,
{
    if from < 0 || from >= s.len() {
        s.len() as int
    } else if s[from] == '/' {
        from
    } else {
        first_slash(s, from + 1)
    }
}

proof fn lemma_first_slash(s: Seq<char>, from: int)
    requires
        0 <= from <= s.len(),
    ensures
        from <= first_slash(s, from) <= s.len(),
        first_slash(s, from) < s.len() ==> s[first_slash(s, from)] == '/',
        forall|k: int| from <= k < first_slash(s, from) ==> s[k] != '/',
        (exists|i: int| from <= i < s.len() && s[i] == '/') ==> first_slash(s, from) < s.len(),
    decreases s.len() - from,
{
    if from < s.len() && s[from] != '/' {
        lemma_first_slash(s, from + 1);
    }
}

/// Splits a catalog name into its slash-separated segments.
#[verifier::loop_isolation(false)]
pub(crate) fn split_slashes(s: &str) -> (r: Vec<String>)
    ensures
        r@.map_values(|x: String| x@) == split_on_slash(s@),
        r@.len() >= 1,
    decreases s@.len(),
{
    let n = s.unicode_len();
    let mut i: usize = 0;
    while i < n
        invariant
            i <= n,
            n == s@.len(),
            forall|k: int| 0 <= k < i ==> s@[k] != '/',
        decreases n - i,
    {
        if s.get_char(i) == '/' {
            proof {
                lemma_first_slash(s@, 0);
                assert(first_slash(s@, 0) == i) by {
                    if first_slash(s@, 0) < i {
                        assert(s@[first_slash(s@, 0)] != '/');
                    }
                    if first_slash(s@, 0) > i {
                        assert(s@[i as int] != '/');
                    }
                }
            }
            let head = s.substring_char(0, i).to_owned();
            let tail = s.substring_char(i + 1, n);
            let rest = split_slashes(tail);
            let mut out: Vec<String> = Vec::new();
            out.push(head);
            let m = rest.len();
            let mut k: usize = 0;
            while k < m
                invariant
                    k <= m,
                    m == rest@.len(),
                    out@.len() == k + 1,
                    out@[0]@ == s@.subrange(0, i as int),
                    forall|x: int| 0 <= x < k ==> (#[trigger] out@[x + 1])@ == rest@[x]@,
                decreases m - k,
            {
                out.push(rest[k].clone());
                k += 1;
            }
            proof {
                let lhs = out@.map_values(|x: String| x@);
                let rhs = seq![s@.subrange(0, i as int)] + rest@.map_values(|x: String| x@);
                assert(lhs.len() == rhs.len());
                assert(lhs[0] == rhs[0]);
                assert forall|x: int| 1 <= x < lhs.len() implies lhs[x] == rhs[x] by {
                    assert(out@[(x - 1) + 1]@ == rest@[x - 1]@);
                    assert(rest@.map_values(|y: String| y@)[x - 1] == rest@[x - 1]@);
                }
                assert(lhs =~= rhs);
                assert(split_on_slash(s@) == rhs);
            }
            return out;
        }
        i += 1;
    }
    let mut out: Vec<String> = Vec::new();
    out.push(s.to_owned());
    proof {
        lemma_first_slash(s@, 0);
        assert(first_slash(s@, 0) == s@.len()) by {
            if first_slash(s@, 0) < s@.len() {
                assert(s@[first_slash(s@, 0)] != '/');
            }
        }
        assert(out@.map_values(|x: String| x@) =~= seq![s@]);
    }
    out
}

/// The key split rule: `messageId` or `messageId.attributeName`, split at
/// the first dot.
pub open spec fn split_key(key: Seq<char>) -> (Seq<char>, Option<Seq<char>>) {
    if exists|i: int| 0 <= i < key.len() && key[i] == '.' {
        let i = first_dot(key, 0);
        (key.subrange(0, i), Some(key.subrange(i + 1, key.len() as int)))
    } else {
        (key, None)
    }
}

/// The first index at or after `from` holding a dot, or the length where
/// none does.
pub open spec fn first_dot(key: Seq<char>, from: int) -> int
    decreases key.len() - from,
{
    if from < 0 || from >= key.len() {
        key.len() as int
    } else if key[from] == '.' {
        from
    } else {
        first_dot(key, from + 1)
    }
}

proof fn lemma_first_dot_from(key: Seq<char>, from: int)
    requires
        0 <= from <= key.len(),
    ensures
        from <= first_dot(key, from) <= key.len(),
        first_dot(key, from) < key.len() ==> key[first_dot(key, from)] == '.',
        forall|k: int| from <= k < first_dot(key, from) ==> key[k] != '.',
        (exists|i: int| from <= i < key.len() && key[i] == '.') ==> first_dot(key, from)
            < key.len(),
    decreases key.len() - from,
{
    if from < key.len() && key[from] != '.' {
        lemma_first_dot_from(key, from + 1);
    }
}

/// Splits a lookup key at its first dot into a message id and an optional
/// attribute name.
pub(crate) fn split_key_exec(key: &str) -> (r: (String, Option<String>))
    ensures
        r.0@ == split_key(key@).0,
        r.1 is Some <==> split_key(key@).1 is Some,
        r.1 matches Some(a) ==> Some(a@) == split_key(key@).1,
{
    let n = key.unicode_len();
    let mut i: usize = 0;
    while i < n
        invariant
            i <= n,
            n == key@.len(),
            forall|k: int| 0 <= k < i ==> key@[k] != '.',
        decreases n - i,
    {
        if key.get_char(i) == '.' {
            proof {
                lemma_first_dot_from(key@, 0);
                assert(first_dot(key@, 0) == i) by {
                    if first_dot(key@, 0) < i {
                        assert(key@[first_dot(key@, 0)] != '.');
                    }
                    if first_dot(key@, 0) > i {
                        assert(key@[i as int] != '.');
                    }
                }
            }
            let id = key.substring_char(0, i).to_owned();
            let attr = key.substring_char(i + 1, n).to_owned();
            return (id, Some(attr));
        }
        i += 1;
    }
    proof {
        assert(!(exists|k: int| 0 <= k < key@.len() && key@[k] == '.'));
    }
    (key.to_owned(), None)
}

} // verus!
