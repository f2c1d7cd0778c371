use vstd::prelude::*;

verus! {

/// The sequence of characters that `str::to_lowercase` maps a string to.
/// Unicode case folding is far too large to restate here, but it is a
/// function of the characters alone, so it only gets this name.
pub uninterp spec fn lower_of(s: Seq<char>) -> Seq<char>;

/// Relies on `str::to_lowercase`: the result depends on the characters of
/// the input alone, the same on every machine.
#[verifier::external_body]
pub(crate) fn to_lower(s: &str) -> (r: String)
    ensures
        r@ == lower_of(s@),
{
    s.to_lowercase()
}

/// Relies on `String::push`: appends exactly the one character.
#[verifier::external_body]
pub(crate) fn push_char(s: &mut String, c: char)
    ensures
        final(s)@ == old(s)@.push(c),
{
    s.push(c)
}

/// The characters of a string as a vector, in order.
pub fn chars_vec(s: &str) -> (r: Vec<char>)
    ensures
        r@ == s@,
{
    let n = s.unicode_len();
    let mut r: Vec<char> = Vec::new();
    let mut i: usize = 0;
    while i < n
        invariant
            i <= n,
            n == s@.len(),
            r@ == s@.subrange(0, i as int),
        decreases n - i,
    {
        let c = s.get_char(i);
        r.push(c);
        i = i + 1;
        proof {
            assert(r@ =~= s@.subrange(0, i as int));
        }
    }
    proof {
        assert(r@ =~= s@);
    }
    r
}

/// Whether `needle` occurs in `hay` starting at position `i`.
pub open spec fn contains_at(hay: Seq<char>, needle: Seq<char>, i: int) -> bool {
    &&& 0 <= i
    &&& i + needle.len() <= hay.len()
    &&& hay.subrange(i, i + needle.len()) == needle
}

/// Whether `needle` occurs anywhere in `hay` as a contiguous run.
pub open spec fn has_substring(hay: Seq<char>, needle: Seq<char>) -> bool {
    exists|i: int| contains_at(hay, needle, i)
}

/// Substring containment, decided exactly.
pub fn has_sub(hay: &Vec<char>, needle: &Vec<char>) -> (r: bool)
    ensures
        r == has_substring(hay@, needle@),
{
    let hl = hay.len();
    let nl = needle.len();
    if nl > hl {
        proof {
            assert(forall|i: int| !contains_at(hay@, needle@, i));
        }
        return false;
    }
    if nl == 0 {
        proof {
            assert(hay@.subrange(0, 0) =~= needle@);
            assert(contains_at(hay@, needle@, 0));
        }
        return true;
    }
    let mut i: usize = 0;
    while i <= hl - nl
        invariant
            0 < nl <= hl,
            hl == hay@.len(),
            nl == needle@.len(),
            i <= hl - nl + 1,
            forall|k: int| 0 <= k < i ==> !contains_at(hay@, needle@, k),
        decreases hl - nl - i + 1,
    {
        let mut j: usize = 0;
        let mut ok: bool = true;
        while j < nl
            invariant
                i + nl <= hl,
                hl == hay@.len(),
                nl == needle@.len(),
                j <= nl,
                ok ==> forall|k: int| 0 <= k < j ==> hay@[i + k] == needle@[k],
                !ok ==> !contains_at(hay@, needle@, i as int),
            decreases nl - j,
        {
            if ok && hay[i + j] != needle[j] {
                ok = false;
                proof {
                    assert(!contains_at(hay@, needle@, i as int)) by {
                        if contains_at(hay@, needle@, i as int) {
                            assert(hay@.subrange(i as int, i + nl)[j as int] == needle@[j as int]);
                        }
                    }
                }
            }
            j = j + 1;
        }
        if ok {
            proof {
                assert(hay@.subrange(i as int, i + nl) =~= needle@);
                assert(contains_at(hay@, needle@, i as int));
            }
            return true;
        }
        i = i + 1;
    }
    proof {
        assert(forall|k: int| 0 <= k < i ==> !contains_at(hay@, needle@, k));
        assert(forall|k: int| k >= i ==> !contains_at(hay@, needle@, k));
    }
    false
}

/// Prefix test, decided exactly.
pub fn starts_with_chars(hay: &Vec<char>, pre: &Vec<char>) -> (r: bool)
    ensures
        r == pre@.is_prefix_of(hay@),
{
    let pl = pre.len();
    if pl > hay.len() {
        return false;
    }
    let mut j: usize = 0;
    while j < pl
        invariant
            pl <= hay@.len(),
            pl == pre@.len(),
            j <= pl,
            forall|k: int| 0 <= k < j ==> hay@[k] == pre@[k],
        decreases pl - j,
    {
        if hay[j] != pre[j] {
            proof {
                assert(!pre@.is_prefix_of(hay@)) by {
                    if pre@.is_prefix_of(hay@) {
                        assert(hay@.subrange(0, pl as int)[j as int] == pre@[j as int]);
                    }
                }
            }
            return false;
        }
        j = j + 1;
    }
    proof {
        assert(hay@.subrange(0, pl as int) =~= pre@);
    }
    true
}

/// Character-for-character equality of two vectors.
pub fn eq_chars(a: &Vec<char>, b: &Vec<char>) -> (r: bool)
    ensures
        r == (a@ == b@),
{
    if a.len() != b.len() {
        return false;
    }
    let mut j: usize = 0;
    while j < a.len()
        invariant
            a@.len() == b@.len(),
            j <= a@.len(),
            forall|k: int| 0 <= k < j ==> a@[k] == b@[k],
        decreases a@.len() - j,
    {
        if a[j] != b[j] {
            return false;
        }
        j = j + 1;
    }
    proof {
        assert(a@ =~= b@);
    }
    true
}

/// Equality of two string slices, decided character by character.
pub fn eq_str(a: &str, b: &str) -> (r: bool)
    ensures
        r == (a@ == b@),
{
    let al = a.unicode_len();
    let bl = b.unicode_len();
    if al != bl {
        return false;
    }
    let mut j: usize = 0;
    while j < al
        invariant
            al == a@.len(),
            a@.len() == b@.len(),
            j <= al,
            forall|k: int| 0 <= k < j ==> a@[k] == b@[k],
        decreases al - j,
    {
        if a.get_char(j) != b.get_char(j) {
            return false;
        }
        j = j + 1;
    }
    proof {
        assert(a@ =~= b@);
    }
    true
}

/// A copy of `v` with `c` put in front.
pub fn prepend_char(c: char, v: &Vec<char>) -> (r: Vec<char>)
    ensures
        r@ == seq![c] + v@,
{
    let mut r: Vec<char> = Vec::new();
    r.push(c);
    let mut j: usize = 0;
    while j < v.len()
        invariant
            j <= v@.len(),
            r@ == seq![c] + v@.subrange(0, j as int),
        decreases v@.len() - j,
    {
        r.push(v[j]);
        j = j + 1;
        proof {
            assert(r@ =~= seq![c] + v@.subrange(0, j as int));
        }
    }
    proof {
        assert(r@ =~= seq![c] + v@);
    }
    r
}

/// Whether a base name is hidden by convention: it starts with a dot.
pub open spec fn is_hidden(name: Seq<char>) -> bool {
    name.len() > 0 && name[0] == '.'
}

/// Hidden-name test, decided exactly.
pub fn starts_with_dot(s: &str) -> (r: bool)
    ensures
        r == is_hidden(s@),
{
    if s.unicode_len() == 0 {
        false
    } else {
        s.get_char(0) == '.'
    }
}

/// The characters after the last `/` of a path; the whole path if it has
/// no `/`; empty if the path ends in `/`.
pub open spec fn after_last_slash(p: Seq<char>) -> Seq<char>
    decreases p.len(),
{
    if p.len() == 0 {
        p
    } else if p.last() == '/' {
        Seq::<char>::empty()
    } else {
        after_last_slash(p.drop_last()).push(p.last())
    }
}

/// The base name of a path: its final component, or the sentinel `~` when
/// the path has no non-empty final component.
pub open spec fn base_name_of(p: Seq<char>) -> Seq<char> {
    if after_last_slash(p).len() == 0 {
        seq!['~']
    } else {
        after_last_slash(p)
    }
}

/// Past the last slash, `after_last_slash` is exactly the tail of the path.
pub proof fn lemma_after_last_slash_at(p: Seq<char>, j: int)
    requires
        0 <= j < p.len(),
        p[j] == '/',
        forall|k: int| j < k < p.len() ==> p[k] != '/',
    ensures
        after_last_slash(p) == p.subrange(j + 1, p.len() as int),
    decreases p.len(),
{
    if j == p.len() - 1 {
        assert(after_last_slash(p) =~= p.subrange(j + 1, p.len() as int));
    } else {
        assert(p.last() != '/');
        let q = p.drop_last();
        assert(q =~= p.subrange(0, p.len() - 1));
        lemma_after_last_slash_at(q, j);
        assert(after_last_slash(p) == after_last_slash(q).push(p.last()));
        assert(after_last_slash(p) =~= p.subrange(j + 1, p.len() as int));
    }
}

/// A path without any slash is its own final component.
pub proof fn lemma_after_last_slash_none(p: Seq<char>)
    requires
        forall|k: int| 0 <= k < p.len() ==> p[k] != '/',
    ensures
        after_last_slash(p) == p,
    decreases p.len(),
{
    if p.len() > 0 {
        lemma_after_last_slash_none(p.drop_last());
        assert(after_last_slash(p) =~= p);
    }
}

/// The base name of a path, as `base_name_of` describes it.
pub fn base_name(p: &str) -> (r: String)
    ensures
        r@ == base_name_of(p@),
{
    let n = p.unicode_len();
    let mut i: usize = 0;
    let mut last: usize = n;
    while i < n
        invariant
            i <= n,
            last <= n,
            n == p@.len(),
            last == n ==> forall|k: int| 0 <= k < i ==> p@[k] != '/',
            last < n ==> last < i && p@[last as int] == '/' && forall|k: int|
                last < k < i ==> p@[k] != '/',
        decreases n - i,
    {
        if p.get_char(i) == '/' {
            last = i;
        }
        i = i + 1;
    }
    if last == n {
        // no slash at all: the whole path is its own final component
        proof {
            lemma_after_last_slash_none(p@);
        }
        if n == 0 {
            let mut r = String::new();
            push_char(&mut r, '~');
            proof {
                assert(r@ =~= seq!['~']);
            }
            r
        } else {
            let r = p.substring_char(0, n);
            proof {
                assert(r@ =~= p@);
            }
            String::from_str(r)
        }
    } else {
        proof {
            lemma_after_last_slash_at(p@, last as int);
        }
        if last + 1 == n {
            // the path ends in a slash: no non-empty final component
            let mut r = String::new();
            push_char(&mut r, '~');
            proof {
                assert(after_last_slash(p@) =~= Seq::<char>::empty());
                assert(r@ =~= seq!['~']);
            }
            r
        } else {
            let r = p.substring_char(last + 1, n);
            proof {
                assert(after_last_slash(p@).len() == n - (last + 1));
            }
            String::from_str(r)
        }
    }
}

/// Filtering a sequence extended by one element.
pub proof fn lemma_filter_push<A>(s: Seq<A>, a: A, pred: spec_fn(A) -> bool)
    ensures
        (s.push(a)).filter(pred) == (if pred(a) {
            s.filter(pred).push(a)
        } else {
            s.filter(pred)
        }),
{
    reveal(Seq::filter);
    assert(s.push(a).drop_last() =~= s);
    assert(s.push(a).last() == a);
}

/// Unfolding one step of filtering a growing prefix.
pub proof fn lemma_filter_take_step<A>(s: Seq<A>, i: int, pred: spec_fn(A) -> bool)
    requires
        0 <= i < s.len(),
    ensures
        s.take(i + 1).filter(pred) == (if pred(s[i]) {
            s.take(i).filter(pred).push(s[i])
        } else {
            s.take(i).filter(pred)
        }),
{
    reveal(Seq::filter);
    assert(s.take(i + 1).drop_last() =~= s.take(i));
    assert(s.take(i + 1).last() == s[i]);
}

/// A filtered sequence only holds elements of the original.
pub proof fn lemma_filter_subset<A>(s: Seq<A>, pred: spec_fn(A) -> bool)
    ensures
        forall|i: int|
            0 <= i < s.filter(pred).len() ==> s.contains(#[trigger] s.filter(pred)[i]),
    decreases s.len(),
{
    reveal(Seq::filter);
    if s.len() > 0 {
        let f = s.filter(pred);
        let d = s.drop_last();
        lemma_filter_subset(d, pred);
        assert forall|i: int| 0 <= i < f.len() implies s.contains(#[trigger] f[i]) by {
            if pred(s.last()) && i == f.len() - 1 {
                assert(f[i] == s.last());
                assert(s[s.len() - 1] == f[i]);
            } else {
                assert(f[i] == d.filter(pred)[i]);
                assert(d.contains(d.filter(pred)[i]));
                let w = choose|w: int| 0 <= w < d.len() && d[w] == f[i];
                assert(s[w] == f[i]);
            }
        }
    }
}

/// `path + "/" + name`: how a child path is formed from its directory.
pub open spec fn joined(dir: Seq<char>, name: Seq<char>) -> Seq<char> {
    dir + seq!['/'] + name
}

/// Builds the path of a child out of its directory's path and its name.
pub fn join_path(dir: &str, name: &str) -> (r: String)
    ensures
        r@ == joined(dir@, name@),
{
    let mut r = String::from_str(dir);
    push_char(&mut r, '/');
    let r2 = r.concat(name);
    proof {
        assert(r2@ =~= joined(dir@, name@));
    }
    r2
}

/// The final component of a joined path is the name that was joined on,
/// whenever the name is non-empty and holds no slash.
pub proof fn lemma_base_name_of_joined(dir: Seq<char>, name: Seq<char>)
    requires
        name.len() > 0,
        forall|k: int| 0 <= k < name.len() ==> name[k] != '/',
    ensures
        base_name_of(joined(dir, name)) == name,
{
    let p = joined(dir, name);
    let j = dir.len() as int;
    assert(p[j] == '/');
    assert(forall|k: int| j < k < p.len() ==> p[k] == name[k - j - 1] && p[k] != '/');
    lemma_after_last_slash_at(p, j);
    assert(after_last_slash(p) =~= name);
}

} // verus!
