//! Character-level text helpers shared by the rule compiler.
//!
//! Rules treat a string as a sequence of characters (each grapheme may be
//! multi-byte), so everything here counts and slices by character, never by
//! byte.

use vstd::prelude::*;
use vstd::string::StrSliceExecFns;
use vstd::string::StringExecFns;

verus! {

/// The characters of `s` with every occurrence of `key` replaced by `w`.
pub open spec fn spec_replace_char(s: Seq<char>, key: char, w: Seq<char>) -> Seq<char>
    decreases s.len(),
{
    if s.len() == 0 {
        Seq::empty()
    } else {
        spec_replace_char(s.drop_last(), key, w) + (if s.last() == key {
            w
        } else {
            seq![s.last()]
        })
    }
}

/// How many times `key` occurs in `s`.
pub open spec fn spec_count_char(s: Seq<char>, key: char) -> nat
    decreases s.len(),
{
    if s.len() == 0 {
        0
    } else {
        spec_count_char(s.drop_last(), key) + (if s.last() == key {
            1nat
        } else {
            0nat
        })
    }
}

/// The index of the first occurrence of `key` in `s`, or -1 if there is none.
pub open spec fn spec_find_char(s: Seq<char>, key: char) -> int
    decreases s.len(),
{
    if s.len() == 0 {
        -1
    } else if s[0] == key {
        0
    } else {
        let rest = spec_find_char(s.drop_first(), key);
        if rest < 0 {
            -1
        } else {
            rest + 1
        }
    }
}

proof fn lemma_take_drop_last(s: Seq<char>, i: int)
    requires
        0 <= i < s.len(),
    ensures
        s.take(i + 1).drop_last() == s.take(i),
        s.take(i + 1).last() == s[i],
{
    assert(s.take(i + 1).drop_last() =~= s.take(i));
}

/// `spec_find_char` returns a genuine first occurrence.
pub proof fn lemma_find_char_props(s: Seq<char>, key: char)
    ensures
        spec_find_char(s, key) >= 0 ==> {
            &&& spec_find_char(s, key) < s.len()
            &&& s[spec_find_char(s, key)] == key
            &&& forall|j: int| 0 <= j < spec_find_char(s, key) ==> s[j] != key
        },
        spec_find_char(s, key) < 0 ==> forall|j: int| 0 <= j < s.len() ==> s[j] != key,
    decreases s.len(),
{
    if s.len() > 0 && s[0] != key {
        lemma_find_char_props(s.drop_first(), key);
        assert(forall|j: int| 1 <= j < s.len() ==> s[j] == s.drop_first()[j - 1]);
    }
}

/// A positive count means the character occurs somewhere.
pub proof fn lemma_count_pos_has_occurrence(s: Seq<char>, key: char)
    requires
        spec_count_char(s, key) > 0,
    ensures
        exists|j: int| 0 <= j < s.len() && s[j] == key,
    decreases s.len(),
{
    if s.len() > 0 {
        if s.last() == key {
            assert(s[s.len() - 1] == key);
        } else {
            lemma_count_pos_has_occurrence(s.drop_last(), key);
            let j = choose|j: int| 0 <= j < s.drop_last().len() && s.drop_last()[j] == key;
            assert(s[j] == key);
        }
    }
}

/// Every character of a replacement result is either a kept character of the
/// source (never the key) or a character of the inserted text.
pub proof fn lemma_replace_char_chars(s: Seq<char>, key: char, w: Seq<char>, c: char)
    requires
        spec_replace_char(s, key, w).contains(c),
    ensures
        (s.contains(c) && c != key) || w.contains(c),
    decreases s.len(),
{
    if s.len() > 0 {
        let head = spec_replace_char(s.drop_last(), key, w);
        let tail: Seq<char> = if s.last() == key {
            w
        } else {
            seq![s.last()]
        };
        let k = choose|k: int| 0 <= k < (head + tail).len() && (head + tail)[k] == c;
        if k < head.len() {
            assert(head[k] == c);
            assert(head.contains(c));
            lemma_replace_char_chars(s.drop_last(), key, w, c);
            if s.drop_last().contains(c) {
                let j = choose|j: int| 0 <= j < s.drop_last().len() && s.drop_last()[j] == c;
                assert(s[j] == c);
            }
        } else {
            assert(tail[k - head.len()] == c);
            if s.last() == key {
                assert(w.contains(c));
            } else {
                assert(c == s.last());
                assert(s[s.len() - 1] == c);
                assert(s.contains(c));
            }
        }
    }
}

/// Replace every occurrence of the character `key` in `s` by the text `w`.
pub fn replace_char(s: &str, key: char, w: &str) -> (r: String)
    ensures
        r@ == spec_replace_char(s@, key, w@),
{
    let n = s.unicode_len();
    let mut out = String::new();
    let mut i: usize = 0;
    while i < n
        invariant
            n == s@.len(),
            i <= n,
            out@ == spec_replace_char(s@.take(i as int), key, w@),
        decreases n - i,
    {
        let c = s.get_char(i);
        if c == key {
            out.append(w);
        } else {
            let piece = s.substring_char(i, i + 1);
            assert(piece@ =~= seq![s@[i as int]]);
            out.append(piece);
        }
        proof {
            lemma_take_drop_last(s@, i as int);
        }
        i = i + 1;
    }
    proof {
        assert(s@.take(n as int) =~= s@);
    }
    out
}

/// Count the occurrences of the character `key` in `s`.
pub fn count_char(s: &str, key: char) -> (r: usize)
    ensures
        r == spec_count_char(s@, key),
{
    let n = s.unicode_len();
    let mut count: usize = 0;
    let mut i: usize = 0;
    while i < n
        invariant
            n == s@.len(),
            i <= n,
            count == spec_count_char(s@.take(i as int), key),
            count <= i,
        decreases n - i,
    {
        let c = s.get_char(i);
        proof {
            lemma_take_drop_last(s@, i as int);
        }
        if c == key {
            count = count + 1;
        }
        i = i + 1;
    }
    proof {
        assert(s@.take(n as int) =~= s@);
    }
    count
}

/// Find the first occurrence of the character `key` in `s`.
pub fn find_char(s: &str, key: char) -> (r: Option<usize>)
    ensures
        match r {
            Some(i) => spec_find_char(s@, key) == i as int,
            None => spec_find_char(s@, key) < 0,
        },
{
    let n = s.unicode_len();
    let mut i: usize = 0;
    while i < n
        invariant
            n == s@.len(),
            i <= n,
            forall|j: int| 0 <= j < i ==> s@[j] != key,
        decreases n - i,
    {
        let c = s.get_char(i);
        if c == key {
            proof {
                lemma_find_char_agrees(s@, key, i as int);
            }
            return Some(i);
        }
        i = i + 1;
    }
    proof {
        lemma_find_char_props(s@, key);
    }
    None
}

/// A first occurrence seen by a scan is the one `spec_find_char` names.
proof fn lemma_find_char_agrees(s: Seq<char>, key: char, i: int)
    requires
        0 <= i < s.len(),
        s[i] == key,
        forall|j: int| 0 <= j < i ==> s[j] != key,
    ensures
        spec_find_char(s, key) == i,
    decreases s.len(),
{
    if i > 0 {
        assert(s[0] != key);
        assert(s.drop_first()[i - 1] == key);
        assert(forall|j: int| 0 <= j < i - 1 ==> s.drop_first()[j] == s[j + 1] && s[j + 1] != key);
        lemma_find_char_agrees(s.drop_first(), key, i - 1);
    }
}

/// Whether two string slices hold the same characters.
pub fn str_eq(a: &str, b: &str) -> (r: bool)
    ensures
        r == (a@ == b@),
{
    let n = a.unicode_len();
    let m = b.unicode_len();
    if n != m {
        return false;
    }
    let mut i: usize = 0;
    while i < n
        invariant
            n == a@.len(),
            n == b@.len(),
            i <= n,
            forall|j: int| 0 <= j < i ==> a@[j] == b@[j],
        decreases n - i,
    {
        if a.get_char(i) != b.get_char(i) {
            return false;
        }
        i = i + 1;
    }
    proof {
        assert(a@ =~= b@);
    }
    true
}

} // verus!
