//! Text helpers: equality, suffixes, joining, and the order in which keys
//! are emitted.
use vstd::prelude::*;
use vstd::string::*;
use vstd::utf8::*;

verus! {

/// `s` ends with `suffix`.
pub open spec fn has_suffix(s: Seq<char>, suffix: Seq<char>) -> bool {
    s.len() >= suffix.len() && s.subrange(s.len() - suffix.len(), s.len() as int) == suffix
}

/// `s` without its last `n` characters; all of `s` when it is shorter.
pub open spec fn without_last(s: Seq<char>, n: nat) -> Seq<char> {
    if s.len() >= n {
        s.subrange(0, s.len() - n)
    } else {
        s
    }
}

/// `name` placed under the directory `dir`; an empty `dir` is the root the
/// paths are relative to.
pub open spec fn joined(dir: Seq<char>, name: Seq<char>) -> Seq<char> {
    if dir.len() == 0 {
        name
    } else {
        dir + seq!['/'] + name
    }
}

/// Byte-wise lexicographic order, strict, compared from index `from` on.
pub open spec fn bytes_precede_from(a: Seq<u8>, b: Seq<u8>, from: int) -> bool
    decreases a.len() - from,
{
    if from < 0 || from >= b.len() {
        false
    } else if from >= a.len() {
        true
    } else if a[from] != b[from] {
        a[from] < b[from]
    } else {
        bytes_precede_from(a, b, from + 1)
    }
}

/// Byte-wise lexicographic order, strict.
pub open spec fn bytes_precede(a: Seq<u8>, b: Seq<u8>) -> bool {
    bytes_precede_from(a, b, 0)
}

/// The order of keys: that of their UTF-8 encodings, byte by byte, which is
/// the order in which the standard library sorts strings.
pub open spec fn key_precedes(a: Seq<char>, b: Seq<char>) -> bool {
    bytes_precede(encode_utf8(a), encode_utf8(b))
}

/// No byte string comes before itself.
pub proof fn lemma_bytes_order_irreflexive(a: Seq<u8>, from: int)
    requires
        0 <= from,
    ensures
        !bytes_precede_from(a, a, from),
    decreases a.len() - from,
{
    if from < a.len() {
        lemma_bytes_order_irreflexive(a, from + 1);
    }
}

/// The order of byte strings is transitive.
pub proof fn lemma_bytes_order_transitive(a: Seq<u8>, b: Seq<u8>, c: Seq<u8>, from: int)
    requires
        0 <= from,
        bytes_precede_from(a, b, from),
        bytes_precede_from(b, c, from),
    ensures
        bytes_precede_from(a, c, from),
    decreases a.len() - from,
{
    if from < a.len() && a[from] == b[from] && b[from] == c[from] {
        lemma_bytes_order_transitive(a, b, c, from + 1);
    }
}

/// Two byte strings that agree before `from`, neither of which comes before
/// the other from there on, are the same.
pub proof fn lemma_bytes_order_total(a: Seq<u8>, b: Seq<u8>, from: int)
    requires
        0 <= from <= a.len(),
        from <= b.len(),
        forall|i: int| 0 <= i < from ==> a[i] == b[i],
        !bytes_precede_from(a, b, from),
        !bytes_precede_from(b, a, from),
    ensures
        a == b,
    decreases a.len() - from,
{
    if from < a.len() && from < b.len() {
        lemma_bytes_order_total(a, b, from + 1);
    } else {
        assert(a =~= b);
    }
}

/// No key comes before itself.
pub proof fn lemma_key_order_irreflexive(a: Seq<char>)
    ensures
        !key_precedes(a, a),
{
    lemma_bytes_order_irreflexive(encode_utf8(a), 0);
}

/// The order of keys is transitive.
pub proof fn lemma_key_order_transitive(a: Seq<char>, b: Seq<char>, c: Seq<char>)
    requires
        key_precedes(a, b),
        key_precedes(b, c),
    ensures
        key_precedes(a, c),
{
    lemma_bytes_order_transitive(encode_utf8(a), encode_utf8(b), encode_utf8(c), 0);
}

/// Of two different keys one comes before the other.
pub proof fn lemma_key_order_total(a: Seq<char>, b: Seq<char>)
    ensures
        a == b || key_precedes(a, b) || key_precedes(b, a),
{
    if !key_precedes(a, b) && !key_precedes(b, a) {
        lemma_bytes_order_total(encode_utf8(a), encode_utf8(b), 0);
        lemma_encoding_injective(a, b);
    }
}

/// A key that does not come after a second, which does not come after a
/// third, does not come after the third.
pub proof fn lemma_key_order_weakly_transitive(a: Seq<char>, b: Seq<char>, c: Seq<char>)
    requires
        !key_precedes(b, a),
        !key_precedes(c, b),
    ensures
        !key_precedes(c, a),
{
    lemma_key_order_total(a, b);
    lemma_key_order_total(b, c);
    if key_precedes(c, a) {
        if a == b {
        } else if b == c {
        } else {
            lemma_key_order_transitive(c, a, b);
        }
    }
}

/// Two texts with the same encoding are the same text.
pub proof fn lemma_encoding_injective(a: Seq<char>, b: Seq<char>)
    requires
        encode_utf8(a) == encode_utf8(b),
    ensures
        a == b,
{
    encode_utf8_decode_utf8(a);
    encode_utf8_decode_utf8(b);
}

/// Whether two texts are equal.
pub fn text_eq(a: &str, b: &str) -> (r: bool)
    ensures
        r == (a@ == b@),
{
    let x = a.as_bytes();
    let y = b.as_bytes();
    if x.len() != y.len() {
        return false;
    }
    let mut i: usize = 0;
    while i < x.len()
        invariant
            i <= x.len(),
            x.len() == y.len(),
            x@ == encode_utf8(a@),
            y@ == encode_utf8(b@),
            forall|j: int| 0 <= j < i ==> x@[j] == y@[j],
        decreases x.len() - i,
    {
        if x[i] != y[i] {
            return false;
        }
        i += 1;
    }
    proof {
        assert(x@ =~= y@);
        lemma_encoding_injective(a@, b@);
    }
    true
}

/// Whether `a` comes strictly before `b` in the order of keys.
pub fn key_before(a: &str, b: &str) -> (r: bool)
    ensures
        r == key_precedes(a@, b@),
{
    let x = a.as_bytes();
    let y = b.as_bytes();
    let mut i: usize = 0;
    while i < x.len() && i < y.len()
        invariant
            i <= x.len(),
            i <= y.len(),
            x@ == encode_utf8(a@),
            y@ == encode_utf8(b@),
            bytes_precede(x@, y@) == bytes_precede_from(x@, y@, i as int),
        decreases x.len() - i,
    {
        if x[i] != y[i] {
            return x[i] < y[i];
        }
        i += 1;
    }
    i < y.len()
}

/// Whether `s` ends with `suffix`.
pub fn ends_with(s: &str, suffix: &str) -> (r: bool)
    ensures
        r == has_suffix(s@, suffix@),
{
    let n = s.unicode_len();
    let m = suffix.unicode_len();
    if n < m {
        return false;
    }
    let start = n - m;
    let mut i: usize = 0;
    while i < m
        invariant
            i <= m,
            n == s@.len(),
            m == suffix@.len(),
            start == n - m,
            forall|j: int| 0 <= j < i ==> s@[start + j] == suffix@[j],
        decreases m - i,
    {
        if s.get_char(start + i) != suffix.get_char(i) {
            proof {
                let tail = s@.subrange(s@.len() - suffix@.len(), s@.len() as int);
                assert(tail[i as int] == s@[start + i]);
            }
            return false;
        }
        i += 1;
    }
    proof {
        assert(s@.subrange(s@.len() - suffix@.len(), s@.len() as int) =~= suffix@);
    }
    true
}

/// `s` without its last `n` characters.
pub fn strip_last(s: &str, n: usize) -> (r: String)
    ensures
        r@ == without_last(s@, n as nat),
{
    let len = s.unicode_len();
    if len >= n {
        String::from_str(s.substring_char(0, len - n))
    } else {
        String::from_str(s)
    }
}

/// `a` followed by `b`.
pub fn append(a: &str, b: &str) -> (r: String)
    ensures
        r@ == a@ + b@,
{
    let mut r = String::from_str(a);
    r.append(b);
    r
}

/// The path of `name` under the directory `dir`.
pub fn join(dir: &str, name: &str) -> (r: String)
    ensures
        r@ == joined(dir@, name@),
{
    if dir.is_empty() {
        String::from_str(name)
    } else {
        let mut r = String::from_str(dir);
        proof {
            reveal_strlit("/");
        }
        r.append("/");
        r.append(name);
        assert(r@ =~= dir@ + seq!['/'] + name@);
        r
    }
}

} // verus!
