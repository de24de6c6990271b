//! Normalization of a raw or reported process name for display: the
//! escaped-space token `\x20` becomes a real space, every remaining
//! backslash is stripped, and surrounding whitespace is trimmed.

use vstd::prelude::*;
use crate::text::{is_space, is_space_char, str_chars, string_from_range};

verus! {

/// Whether the escaped-space token `\x20` stands at the front of `s`.
pub open spec fn esc_at_front(s: Seq<char>) -> bool {
    s.len() >= 4 && s[0] == '\\' && s[1] == 'x' && s[2] == '2' && s[3] == '0'
}

/// One left-to-right pass over `s`: each `\x20` token becomes a single
/// space, and every backslash outside such a token is dropped.
pub open spec fn unescape(s: Seq<char>) -> Seq<char>
    decreases s.len(),
{
    if esc_at_front(s) {
        seq![' '] + unescape(s.skip(4))
    } else if s.len() > 0 {
        if s[0] == '\\' {
            unescape(s.skip(1))
        } else {
            seq![s[0]] + unescape(s.skip(1))
        }
    } else {
        Seq::empty()
    }
}

/// `s` without its leading run of whitespace.
pub open spec fn trim_start(s: Seq<char>) -> Seq<char>
    decreases s.len(),
{
    if s.len() > 0 && is_space(s[0]) {
        trim_start(s.skip(1))
    } else {
        s
    }
}

/// `s` without its trailing run of whitespace.
pub open spec fn trim_end(s: Seq<char>) -> Seq<char>
    decreases s.len(),
{
    if s.len() > 0 && is_space(s[s.len() - 1]) {
        trim_end(s.take(s.len() - 1))
    } else {
        s
    }
}

/// `s` without leading and trailing whitespace.
pub open spec fn trim(s: Seq<char>) -> Seq<char> {
    trim_end(trim_start(s))
}

/// The cleaned form of a process name: escapes resolved, backslashes
/// stripped, ends trimmed.
pub open spec fn clean(s: Seq<char>) -> Seq<char> {
    trim(unescape(s))
}

proof fn lemma_trim_start_at(s: Seq<char>, k: int)
    requires
        0 <= k <= s.len(),
        forall|j: int| 0 <= j < k ==> is_space(s[j]),
        k == s.len() || !is_space(s[k]),
    ensures
        trim_start(s) == s.skip(k),
    decreases k,
{
    if k == 0 {
        assert(s.skip(0) =~= s);
    } else {
        assert(is_space(s[0]));
        lemma_trim_start_at(s.skip(1), k - 1);
        assert(s.skip(1).skip(k - 1) =~= s.skip(k));
    }
}

proof fn lemma_trim_end_at(s: Seq<char>, k: int)
    requires
        0 <= k <= s.len(),
        forall|j: int| k <= j < s.len() ==> is_space(s[j]),
        k == 0 || !is_space(s[k - 1]),
    ensures
        trim_end(s) == s.take(k),
    decreases s.len() - k,
{
    if k == s.len() {
        assert(s.take(k) =~= s);
    } else {
        assert(is_space(s[s.len() - 1]));
        lemma_trim_end_at(s.take(s.len() - 1), k);
    }
}

/// Trimming an already-trimmed sequence changes nothing.
proof fn lemma_trim_idempotent(s: Seq<char>)
    ensures
        trim(trim(s)) == trim(s),
{
    let a = trim_start(s);
    lemma_trim_start_no_leading_space(s);
    let t = trim_end(a);
    lemma_trim_end_is_prefix(a);
    if t.len() > 0 {
        assert(t[0] == a[0]);
        assert(!is_space(t[0]));
    }
    lemma_trim_start_at(t, 0);
    lemma_trim_end_no_trailing_space(a);
    lemma_trim_end_at(t, t.len() as int);
    assert(t.take(t.len() as int) =~= t);
    assert(t.skip(0) =~= t);
}

proof fn lemma_trim_start_no_leading_space(s: Seq<char>)
    ensures
        trim_start(s).len() > 0 ==> !is_space(trim_start(s)[0]),
    decreases s.len(),
{
    if s.len() > 0 && is_space(s[0]) {
        lemma_trim_start_no_leading_space(s.skip(1));
    }
}

proof fn lemma_trim_end_is_prefix(s: Seq<char>)
    ensures
        trim_end(s).len() <= s.len(),
        forall|j: int| 0 <= j < trim_end(s).len() ==> trim_end(s)[j] == s[j],
    decreases s.len(),
{
    if s.len() > 0 && is_space(s[s.len() - 1]) {
        let h = s.take(s.len() - 1);
        lemma_trim_end_is_prefix(h);
        assert forall|j: int| 0 <= j < trim_end(s).len() implies trim_end(s)[j] == s[j] by {
            assert(trim_end(s)[j] == trim_end(h)[j]);
            assert(trim_end(h)[j] == h[j]);
        }
    }
}

proof fn lemma_trim_end_no_trailing_space(s: Seq<char>)
    ensures
        trim_end(s).len() > 0 ==> !is_space(trim_end(s)[trim_end(s).len() - 1]),
    decreases s.len(),
{
    if s.len() > 0 && is_space(s[s.len() - 1]) {
        lemma_trim_end_no_trailing_space(s.take(s.len() - 1));
    }
}

/// Unescaping leaves no backslash behind.
proof fn lemma_unescape_no_backslash(s: Seq<char>)
    ensures
        forall|j: int| 0 <= j < unescape(s).len() ==> unescape(s)[j] != '\\',
    decreases s.len(),
{
    if esc_at_front(s) {
        lemma_unescape_no_backslash(s.skip(4));
        assert forall|j: int| 0 <= j < unescape(s).len() implies unescape(s)[j] != '\\' by {
            if j > 0 {
                assert(unescape(s)[j] == unescape(s.skip(4))[j - 1]);
            }
        }
    } else if s.len() > 0 {
        lemma_unescape_no_backslash(s.skip(1));
        if s[0] != '\\' {
            assert forall|j: int| 0 <= j < unescape(s).len() implies unescape(s)[j] != '\\' by {
                if j > 0 {
                    assert(unescape(s)[j] == unescape(s.skip(1))[j - 1]);
                }
            }
        }
    }
}

/// On a sequence without backslashes, unescaping is the identity.
proof fn lemma_unescape_identity(s: Seq<char>)
    requires
        forall|j: int| 0 <= j < s.len() ==> s[j] != '\\',
    ensures
        unescape(s) == s,
    decreases s.len(),
{
    if s.len() > 0 {
        assert(!esc_at_front(s));
        lemma_unescape_identity(s.skip(1));
        assert(seq![s[0]] + s.skip(1) =~= s);
    } else {
        assert(unescape(s) =~= s);
    }
}

/// Name cleaning is idempotent: cleaning an already-clean name returns
/// it unchanged.
pub proof fn lemma_clean_idempotent(s: Seq<char>)
    ensures
        clean(clean(s)) == clean(s),
{
    let u = unescape(s);
    lemma_unescape_no_backslash(s);
    let a = trim_start(u);
    let t = trim_end(a);
    lemma_trim_start_is_suffix(u);
    assert forall|j: int| 0 <= j < a.len() implies a[j] != '\\' by {
        assert(a[j] == u[j + (u.len() - a.len())]);
    }
    lemma_trim_end_is_prefix(a);
    assert forall|j: int| 0 <= j < t.len() implies t[j] != '\\' by {
        assert(t[j] == a[j]);
    }
    lemma_unescape_identity(t);
    lemma_trim_idempotent(u);
}

proof fn lemma_trim_start_is_suffix(s: Seq<char>)
    ensures
        trim_start(s).len() <= s.len(),
        forall|j: int|
            0 <= j < trim_start(s).len() ==> trim_start(s)[j] == s[j + (s.len()
                - trim_start(s).len())],
    decreases s.len(),
{
    if s.len() > 0 && is_space(s[0]) {
        lemma_trim_start_is_suffix(s.skip(1));
    }
}

/// Normalize a raw or reported process name for display: replace each
/// `\x20` token with a space, strip backslashes, trim whitespace.
pub fn clean_process_name(name: &str) -> (r: String)
    ensures
        r@ == clean(name@),
{
    let v = str_chars(name);
    let u = unescape_chars(&v);
    let start = scan_start(&u);
    if start == u.len() {
        proof {
            lemma_trim_start_at(u@, start as int);
            assert(u@.skip(u@.len() as int) =~= Seq::<char>::empty());
        }
        String::new()
    } else {
        let end = scan_end(&u, start);
        proof {
            lemma_trim_start_at(u@, start as int);
            let a = u@.skip(start as int);
            lemma_trim_end_at(a, end - start as int);
            assert(a.take(end - start as int) =~= u@.subrange(start as int, end as int));
        }
        string_from_range(&u, start, end)
    }
}

/// One pass over the characters: resolve `\x20` tokens, drop backslashes.
fn unescape_chars(v: &Vec<char>) -> (r: Vec<char>)
    ensures
        r@ == unescape(v@),
{
    let n = v.len();
    let mut r: Vec<char> = Vec::new();
    let mut i: usize = 0;
    proof {
        assert(v@.skip(0) =~= v@);
        assert(r@ + unescape(v@) =~= unescape(v@));
    }
    while i < n
        invariant
            n == v@.len(),
            i <= n,
            unescape(v@) == r@ + unescape(v@.skip(i as int)),
        decreases n - i,
    {
        let ghost pre = r@;
        let ghost rest = v@.skip(i as int);
        if n - i > 3 && v[i] == '\\' && v[i + 1] == 'x' && v[i + 2] == '2' && v[i + 3] == '0' {
            proof {
                assert(esc_at_front(rest));
                assert(rest.skip(4) =~= v@.skip(i + 4));
            }
            r.push(' ');
            i = i + 4;
            proof {
                assert(pre + (seq![' '] + unescape(v@.skip(i as int))) =~= r@ + unescape(
                    v@.skip(i as int),
                ));
            }
        } else if v[i] == '\\' {
            proof {
                assert(!esc_at_front(rest));
                assert(rest.skip(1) =~= v@.skip(i + 1));
            }
            i = i + 1;
        } else {
            proof {
                assert(!esc_at_front(rest));
                assert(rest.skip(1) =~= v@.skip(i + 1));
            }
            r.push(v[i]);
            i = i + 1;
            proof {
                assert(pre + (seq![v@[i - 1]] + unescape(v@.skip(i as int))) =~= r@ + unescape(
                    v@.skip(i as int),
                ));
            }
        }
    }
    proof {
        assert(v@.skip(n as int) =~= Seq::<char>::empty());
        assert(r@ + Seq::<char>::empty() =~= r@);
    }
    r
}

/// Index of the first non-whitespace character, or the length.
fn scan_start(v: &Vec<char>) -> (start: usize)
    ensures
        start <= v@.len(),
        forall|j: int| 0 <= j < start ==> is_space(v@[j]),
        start == v@.len() || !is_space(v@[start as int]),
{
    let mut i: usize = 0;
    while i < v.len() && is_space_char(v[i])
        invariant
            i <= v@.len(),
            forall|j: int| 0 <= j < i ==> is_space(v@[j]),
        decreases v@.len() - i,
    {
        i = i + 1;
    }
    i
}

/// One past the last non-whitespace character at or after `start`,
/// given that `v[start]` is not whitespace.
fn scan_end(v: &Vec<char>, start: usize) -> (end: usize)
    requires
        start < v@.len(),
        !is_space(v@[start as int]),
    ensures
        start < end <= v@.len(),
        !is_space(v@[end - 1]),
        forall|j: int| end <= j < v@.len() ==> is_space(v@[j]),
{
    let mut e: usize = v.len();
    while e > start + 1 && is_space_char(v[e - 1])
        invariant
            start + 1 <= e <= v@.len(),
            forall|j: int| e <= j < v@.len() ==> is_space(v@[j]),
        decreases e,
    {
        e = e - 1;
    }
    e
}

} // verus!
