//! Small helpers on text.
use vstd::prelude::*;
use vstd::string::*;
use vstd::utf8::*;

verus! {

broadcast use vstd::utf8::group_utf8_lib;

/// Whether two pieces of text are equal.
pub fn same_text(a: &str, b: &str) -> (same: bool)
    ensures
        same == (a@ == b@),
{
    let x = a.as_bytes();
    let y = b.as_bytes();
    proof {
        assert(decode_utf8(encode_utf8(a@)) == a@);
        assert(decode_utf8(encode_utf8(b@)) == b@);
    }
    if x.len() != y.len() {
        return false;
    }
    let mut i: usize = 0;
    while i < x.len()
        invariant
            i <= x.len(),
            x.len() == y.len(),
            x@ == encode_utf8(a@),
            y@ == encode_utf8(b@),
            decode_utf8(encode_utf8(a@)) == a@,
            decode_utf8(encode_utf8(b@)) == b@,
            forall|k: int| 0 <= k < i ==> x@[k] == y@[k],
        decreases x.len() - i,
    {
        if x[i] != y[i] {
            return false;
        }
        i += 1;
    }
    assert(x@ =~= y@);
    true
}

/// Whether an optional piece of text is present and equal to `b`.
pub fn is_text(a: Option<&str>, b: &str) -> (same: bool)
    ensures
        same == (a is Some && a->0@ == b@),
{
    match a {
        Some(a) => same_text(a, b),
        None => false,
    }
}

} // verus!

verus! {

/// The pieces of text that `v` holds, as a set.
pub open spec fn text_set(v: Seq<String>) -> Set<Seq<char>> {
    Set::new(|s: Seq<char>| exists|i: int| 0 <= i < v.len() && (#[trigger] v[i])@ == s)
}

/// The keys of the list `v`, as a set.
pub open spec fn key_set<V>(v: Seq<(String, V)>) -> Set<Seq<char>> {
    Set::new(|s: Seq<char>| exists|i: int| 0 <= i < v.len() && (#[trigger] v[i]).0@ == s)
}

/// The list `v` with each key as the text that it holds.
pub open spec fn named<V>(v: Seq<(String, V)>) -> Seq<(Seq<char>, V)> {
    v.map_values(|e: (String, V)| (e.0@, e.1))
}

/// The index of the first entry of `v` under the name `key`.
pub open spec fn name_index<V>(v: Seq<(Seq<char>, V)>, key: Seq<char>) -> Option<int>
    decreases v.len(),
{
    if v.len() == 0 {
        None
    } else {
        match name_index(v.drop_last(), key) {
            Some(i) => Some(i),
            None => if v.last().0 == key {
                Some(v.len() - 1)
            } else {
                None
            },
        }
    }
}

/// `name_index` finds an entry under the name exactly if there is one, and
/// then the first.
pub proof fn lemma_name_index<V>(v: Seq<(Seq<char>, V)>, key: Seq<char>)
    ensures
        match name_index(v, key) {
            Some(i) => 0 <= i < v.len() && v[i].0 == key && forall|k: int|
                0 <= k < i ==> (#[trigger] v[k]).0 != key,
            None => forall|k: int| 0 <= k < v.len() ==> (#[trigger] v[k]).0 != key,
        },
    decreases v.len(),
{
    if v.len() > 0 {
        let front = v.drop_last();
        lemma_name_index(front, key);
        match name_index(front, key) {
            Some(i) => {
                assert(v[i] == front[i]);
                assert forall|k: int| 0 <= k < i implies (#[trigger] v[k]).0 != key by {
                    assert(front[k].0 != key);
                }
            },
            None => {
                assert forall|k: int| 0 <= k < v.len() - 1 implies (#[trigger] v[k]).0 != key by {
                    assert(front[k].0 != key);
                }
            },
        }
    }
}

/// The index of the first entry of `v` under the key `key`.
pub open spec fn key_index<V>(v: Seq<(String, V)>, key: Seq<char>) -> Option<int> {
    name_index(named(v), key)
}

/// `key_index` finds an entry under the key exactly if there is one, and
/// then the first.
pub proof fn lemma_key_index<V>(v: Seq<(String, V)>, key: Seq<char>)
    ensures
        key_index(v, key) is Some <==> key_set(v).contains(key),
        key_index(v, key) is Some ==> {
            let i = key_index(v, key)->0;
            &&& 0 <= i < v.len()
            &&& v[i].0@ == key
            &&& forall|k: int| 0 <= k < i ==> (#[trigger] v[k]).0@ != key
        },
{
    lemma_name_index(named(v), key);
    match key_index(v, key) {
        Some(i) => {
            assert(named(v)[i].0 == v[i].0@);
            assert forall|k: int| 0 <= k < i implies (#[trigger] v[k]).0@ != key by {
                assert(named(v)[k].0 != key);
            }
        },
        None => {
            if key_set(v).contains(key) {
                let i = choose|i: int| 0 <= i < v.len() && (#[trigger] v[i]).0@ == key;
                assert(named(v)[i].0 != key);
            }
        },
    }
}

/// Whether `v` holds the text `s`.
pub fn contains_text(v: &Vec<String>, s: &str) -> (found: bool)
    ensures
        found == text_set(v@).contains(s@),
{
    let mut i: usize = 0;
    while i < v.len()
        invariant
            i <= v.len(),
            forall|k: int| 0 <= k < i ==> (#[trigger] v@[k])@ != s@,
        decreases v.len() - i,
    {
        if same_text(v[i].as_str(), s) {
            return true;
        }
        i += 1;
    }
    false
}

/// The index of the first entry of `v` under the key `key`.
#[verifier::loop_isolation(false)]
pub fn find_key<V>(v: &Vec<(String, V)>, key: &str) -> (found: Option<usize>)
    ensures
        found is Some <==> key_index(v@, key@) is Some,
        found is Some ==> found->0 == key_index(v@, key@)->0,
        found is Some <==> key_set(v@).contains(key@),
        found is Some ==> found->0 < v@.len() && v@[found->0 as int].0@ == key@,
{
    proof {
        lemma_key_index(v@, key@);
    }
    let mut i: usize = 0;
    while i < v.len()
        invariant
            i <= v.len(),
            forall|k: int| 0 <= k < i ==> (#[trigger] v@[k]).0@ != key@,
        decreases v.len() - i,
    {
        if same_text(v[i].0.as_str(), key) {
            assert(key_set(v@).contains(key@));
            return Some(i);
        }
        i += 1;
    }
    None
}

/// Whether `c` is a single or a double quote.
pub open spec fn is_quote(c: char) -> bool {
    c == '"' || c == '\''
}

/// `s` without the quotes around it, if it stands in quotes.
pub open spec fn unquoted(s: Seq<char>) -> Seq<char> {
    if s.len() >= 2 && is_quote(s[0]) && is_quote(s.last()) {
        s.subrange(1, s.len() - 1)
    } else {
        s
    }
}

/// `s` without the quotes around it, if it stands in quotes.
pub fn strip_quotes(s: &str) -> (r: String)
    ensures
        r@ == unquoted(s@),
{
    let n = s.unicode_len();
    if n >= 2 {
        let first = s.get_char(0);
        let last = s.get_char(n - 1);
        if (first == '"' || first == '\'') && (last == '"' || last == '\'') {
            return s.substring_char(1, n - 1).to_owned();
        }
    }
    s.to_owned()
}

/// The decimal digit `d`.
pub open spec fn digit(d: nat) -> Seq<char> {
    if d == 0 {
        "0"@
    } else if d == 1 {
        "1"@
    } else if d == 2 {
        "2"@
    } else if d == 3 {
        "3"@
    } else if d == 4 {
        "4"@
    } else if d == 5 {
        "5"@
    } else if d == 6 {
        "6"@
    } else if d == 7 {
        "7"@
    } else if d == 8 {
        "8"@
    } else {
        "9"@
    }
}

/// The number `n` in decimal digits.
pub open spec fn decimal_text(n: nat) -> Seq<char>
    decreases n,
{
    if n < 10 {
        digit(n)
    } else {
        decimal_text(n / 10) + digit(n % 10)
    }
}

fn digit_str(d: usize) -> (s: &'static str)
    requires
        d < 10,
    ensures
        s@ == digit(d as nat),
{
    if d == 0 {
        "0"
    } else if d == 1 {
        "1"
    } else if d == 2 {
        "2"
    } else if d == 3 {
        "3"
    } else if d == 4 {
        "4"
    } else if d == 5 {
        "5"
    } else if d == 6 {
        "6"
    } else if d == 7 {
        "7"
    } else if d == 8 {
        "8"
    } else {
        "9"
    }
}

/// The number `n` in decimal digits.
pub fn decimal(n: usize) -> (s: String)
    ensures
        s@ == decimal_text(n as nat),
    decreases n,
{
    if n < 10 {
        digit_str(n).to_owned()
    } else {
        let mut s = decimal(n / 10);
        s.append(digit_str(n % 10));
        s
    }
}

/// `s` with a backslash before each double quote.
pub open spec fn escaped(s: Seq<char>) -> Seq<char>
    decreases s.len(),
{
    if s.len() == 0 {
        Seq::empty()
    } else {
        escaped(s.drop_last()) + (if s.last() == '"' {
            "\\\""@
        } else {
            seq![s.last()]
        })
    }
}

/// `s` with a backslash before each double quote.
pub fn escape_quotes(s: &str) -> (r: String)
    ensures
        r@ == escaped(s@),
{
    let n = s.unicode_len();
    let mut r = String::new();
    let mut i: usize = 0;
    assert(s@.take(0) =~= Seq::<char>::empty());
    while i < n
        invariant
            i <= n,
            n == s@.len(),
            r@ == escaped(s@.take(i as int)),
        decreases n - i,
    {
        proof {
            assert(s@.take(i + 1).drop_last() =~= s@.take(i as int));
            assert(s@.take(i + 1).last() == s@[i as int]);
        }
        if s.get_char(i) == '"' {
            r.append("\\\"");
        } else {
            let one = s.substring_char(i, i + 1);
            assert(one@ =~= seq![s@[i as int]]);
            r.append(one);
        }
        i += 1;
    }
    assert(s@.take(n as int) =~= s@);
    r
}

/// `depth` times two spaces.
pub open spec fn indent_text(depth: nat) -> Seq<char>
    decreases depth,
{
    if depth == 0 {
        Seq::empty()
    } else {
        indent_text((depth - 1) as nat) + "  "@
    }
}

/// `depth` times two spaces.
pub fn indent(depth: usize) -> (s: String)
    ensures
        s@ == indent_text(depth as nat),
{
    let mut s = String::new();
    let mut i: usize = 0;
    while i < depth
        invariant
            i <= depth,
            s@ == indent_text(i as nat),
        decreases depth - i,
    {
        s.append("  ");
        i += 1;
    }
    s
}

} // verus!
