//! Text as sequences of characters: the order in which keys are kept, and the
//! searching, cutting and rewriting that keys and labels need.

use vstd::prelude::*;
use vstd::utf8::*;

verus! {

/// The texts of a sequence of strings.
pub open spec fn texts(v: Seq<String>) -> Seq<Seq<char>> {
    Seq::new(v.len(), |i: int| v[i]@)
}

/// The text of a string that may be absent.
pub open spec fn opt_text(o: Option<String>) -> Option<Seq<char>> {
    match o {
        Some(s) => Some(s@),
        None => None,
    }
}

/// Lexicographic order on byte sequences: the first differing byte decides,
/// and a proper prefix comes first.
pub open spec fn bytes_lt(a: Seq<u8>, b: Seq<u8>) -> bool
    decreases a.len(),
{
    if b.len() == 0 {
        false
    } else if a.len() == 0 {
        true
    } else if a[0] != b[0] {
        a[0] < b[0]
    } else {
        bytes_lt(a.drop_first(), b.drop_first())
    }
}

/// The order of texts: that of their UTF-8 encodings, which is the order of
/// `str`.
pub open spec fn text_lt(a: Seq<char>, b: Seq<char>) -> bool {
    bytes_lt(encode_utf8(a), encode_utf8(b))
}

/// Every text in `keys` is below the one after it.
pub open spec fn ascending(keys: Seq<Seq<char>>) -> bool {
    forall|i: int, j: int| 0 <= i < j < keys.len() ==> text_lt(#[trigger] keys[i], #[trigger] keys[j])
}

pub proof fn lemma_bytes_lt_irreflexive(a: Seq<u8>)
    ensures
        !bytes_lt(a, a),
    decreases a.len(),
{
    if a.len() > 0 {
        lemma_bytes_lt_irreflexive(a.drop_first());
    }
}

pub proof fn lemma_bytes_lt_transitive(a: Seq<u8>, b: Seq<u8>, c: Seq<u8>)
    requires
        bytes_lt(a, b),
        bytes_lt(b, c),
    ensures
        bytes_lt(a, c),
    decreases a.len(),
{
    if a.len() > 0 && a[0] == b[0] && b[0] == c[0] {
        lemma_bytes_lt_transitive(a.drop_first(), b.drop_first(), c.drop_first());
    }
}

pub proof fn lemma_bytes_lt_total(a: Seq<u8>, b: Seq<u8>)
    ensures
        bytes_lt(a, b) || bytes_lt(b, a) || a == b,
    decreases a.len(),
{
    if a.len() > 0 && b.len() > 0 && a[0] == b[0] {
        lemma_bytes_lt_total(a.drop_first(), b.drop_first());
        if a.drop_first() == b.drop_first() {
            assert(a =~= seq![a[0]] + a.drop_first());
            assert(b =~= seq![b[0]] + b.drop_first());
        }
    } else if a.len() == 0 && b.len() == 0 {
        assert(a =~= b);
    }
}

/// Where two byte sequences agree on their first `n` bytes, the rest decides
/// their order.
pub proof fn lemma_bytes_lt_after_prefix(a: Seq<u8>, b: Seq<u8>, n: int)
    requires
        0 <= n <= a.len(),
        n <= b.len(),
        a.take(n) == b.take(n),
    ensures
        bytes_lt(a, b) == bytes_lt(a.skip(n), b.skip(n)),
    decreases n,
{
    if n == 0 {
        assert(a.skip(0) =~= a);
        assert(b.skip(0) =~= b);
    } else {
        assert(a[0] == a.take(n)[0]);
        assert(b[0] == b.take(n)[0]);
        let a1 = a.drop_first();
        let b1 = b.drop_first();
        assert(a1.take(n - 1) =~= a.take(n).drop_first());
        assert(b1.take(n - 1) =~= b.take(n).drop_first());
        lemma_bytes_lt_after_prefix(a1, b1, n - 1);
        assert(a1.skip(n - 1) =~= a.skip(n));
        assert(b1.skip(n - 1) =~= b.skip(n));
    }
}

/// Two texts with the same encoding are the same text.
pub proof fn lemma_encoding_decides(a: Seq<char>, b: Seq<char>)
    requires
        encode_utf8(a) == encode_utf8(b),
    ensures
        a == b,
{
    encode_utf8_decode_utf8(a);
    encode_utf8_decode_utf8(b);
}

/// No text is below itself.
pub proof fn lemma_text_lt_irreflexive(a: Seq<char>)
    ensures
        !text_lt(a, a),
{
    lemma_bytes_lt_irreflexive(encode_utf8(a));
}

/// The order of texts is transitive.
pub proof fn lemma_text_lt_transitive(a: Seq<char>, b: Seq<char>, c: Seq<char>)
    requires
        text_lt(a, b),
        text_lt(b, c),
    ensures
        text_lt(a, c),
{
    lemma_bytes_lt_transitive(encode_utf8(a), encode_utf8(b), encode_utf8(c));
}

/// Of two different texts one is below the other.
pub proof fn lemma_text_lt_total(a: Seq<char>, b: Seq<char>)
    ensures
        text_lt(a, b) || text_lt(b, a) || a == b,
{
    lemma_bytes_lt_total(encode_utf8(a), encode_utf8(b));
    if encode_utf8(a) == encode_utf8(b) {
        lemma_encoding_decides(a, b);
    }
}

/// How one text stands to another in the order of texts.
#[derive(Clone, Copy, Debug, PartialEq, Eq, Structural)]
pub enum Placement {
    Before,
    Same,
    After,
}

/// What `Placement` says of two texts.
pub open spec fn placement_of(a: Seq<char>, b: Seq<char>) -> Placement {
    if a == b {
        Placement::Same
    } else if text_lt(a, b) {
        Placement::Before
    } else {
        Placement::After
    }
}

/// Compares two texts in the order of texts.
pub fn place(a: &str, b: &str) -> (r: Placement)
    ensures
        r == placement_of(a@, b@),
        r == Placement::After ==> text_lt(b@, a@),
{
    let x = a.as_bytes();
    let y = b.as_bytes();
    let n: usize = if x.len() < y.len() {
        x.len()
    } else {
        y.len()
    };
    let mut i: usize = 0;
    while i < n
        invariant
            i <= n,
            n <= x@.len(),
            n <= y@.len(),
            n == x@.len() || n == y@.len(),
            x@ == encode_utf8(a@),
            y@ == encode_utf8(b@),
            x@.take(i as int) == y@.take(i as int),
        decreases n - i,
    {
        if x[i] != y[i] {
            proof {
                lemma_bytes_lt_after_prefix(x@, y@, i as int);
                lemma_bytes_lt_after_prefix(y@, x@, i as int);
                lemma_text_lt_irreflexive(a@);
                if x[i as int] < y[i as int] {
                    lemma_bytes_lt_irreflexive(x@);
                    if bytes_lt(y@, x@) {
                        lemma_bytes_lt_transitive(x@, y@, x@);
                    }
                }
            }
            if x[i] < y[i] {
                return Placement::Before;
            } else {
                return Placement::After;
            }
        }
        assert(x@.take(i + 1) =~= x@.take(i as int).push(x@[i as int]));
        assert(y@.take(i + 1) =~= y@.take(i as int).push(y@[i as int]));
        i += 1;
    }
    proof {
        lemma_bytes_lt_after_prefix(x@, y@, n as int);
        lemma_bytes_lt_after_prefix(y@, x@, n as int);
        lemma_text_lt_irreflexive(a@);
        lemma_bytes_lt_irreflexive(x@);
        if x@.len() == y@.len() {
            assert(x@ =~= x@.take(n as int));
            assert(y@ =~= y@.take(n as int));
            lemma_encoding_decides(a@, b@);
        } else if bytes_lt(x@, y@) && bytes_lt(y@, x@) {
            lemma_bytes_lt_transitive(x@, y@, x@);
        }
    }
    if x.len() == y.len() {
        Placement::Same
    } else if x.len() < y.len() {
        Placement::Before
    } else {
        Placement::After
    }
}

/// Whether two texts are the same.
pub fn same_text(a: &str, b: &str) -> (r: bool)
    ensures
        r == (a@ == b@),
{
    place(a, b) == Placement::Same
}

/// The index of the first `c` in `s`; the length of `s` where it holds none.
pub open spec fn first_index(s: Seq<char>, c: char) -> int
    decreases s.len(),
{
    if s.len() == 0 || s[0] == c {
        0
    } else {
        1 + first_index(s.drop_first(), c)
    }
}

/// `first_index` is the least index that holds `c`.
pub proof fn lemma_first_index(s: Seq<char>, c: char)
    ensures
        0 <= first_index(s, c) <= s.len(),
        first_index(s, c) < s.len() ==> s[first_index(s, c)] == c,
        forall|j: int| 0 <= j < first_index(s, c) ==> s[j] != c,
        first_index(s, c) < s.len() <==> s.contains(c),
    decreases s.len(),
{
    if s.len() == 0 || s[0] == c {
    } else {
        let rest = s.drop_first();
        lemma_first_index(rest, c);
        let k = first_index(rest, c);
        assert forall|j: int| 0 <= j < k + 1 implies s[j] != c by {
            if j > 0 {
                assert(s[j] == rest[j - 1]);
            }
        }
        if k < rest.len() {
            assert(s[k + 1] == rest[k]);
        }
        if s.contains(c) {
            let w = choose|w: int| 0 <= w < s.len() && s[w] == c;
            assert(rest[w - 1] == c);
        }
    }
}

/// The index `k` is `first_index` where no earlier place holds `c` and `k`
/// holds it or is the length.
pub proof fn lemma_first_index_is(s: Seq<char>, c: char, k: int)
    requires
        0 <= k <= s.len(),
        forall|j: int| 0 <= j < k ==> s[j] != c,
        k < s.len() ==> s[k] == c,
    ensures
        first_index(s, c) == k,
{
    lemma_first_index(s, c);
}

/// The part of `s` after its last `c`; all of `s` where it holds none.
pub open spec fn after_last(s: Seq<char>, c: char) -> Seq<char>
    decreases s.len(),
{
    if s.len() == 0 {
        s
    } else if s.last() == c {
        Seq::empty()
    } else {
        after_last(s.drop_last(), c).push(s.last())
    }
}

/// `after_last` is the end of `s`, holds no `c`, and stands right behind a
/// `c` unless it is all of `s`.
pub proof fn lemma_after_last(s: Seq<char>, c: char)
    ensures
        after_last(s, c).len() <= s.len(),
        after_last(s, c) == s.skip(s.len() - after_last(s, c).len()),
        !after_last(s, c).contains(c),
        after_last(s, c).len() < s.len() ==> s[s.len() - after_last(s, c).len() - 1] == c,
    decreases s.len(),
{
    if s.len() == 0 {
        assert(s.skip(0) =~= s);
    } else if s.last() == c {
        assert(s.skip(s.len() as int) =~= Seq::<char>::empty());
    } else {
        let front = s.drop_last();
        lemma_after_last(front, c);
        let tail = after_last(front, c);
        assert(tail.push(s.last()) =~= s.skip(s.len() - tail.len() - 1));
        if tail.push(s.last()).contains(c) {
            let w = choose|w: int| 0 <= w < tail.len() + 1 && tail.push(s.last())[w] == c;
            assert(tail[w] == c);
        }
    }
}

/// Behind a `c` that is followed by no other, `after_last` gives all that
/// follows.
pub proof fn lemma_after_last_join(a: Seq<char>, b: Seq<char>, c: char)
    requires
        !b.contains(c),
    ensures
        after_last(a + seq![c] + b, c) == b,
    decreases b.len(),
{
    let s = a + seq![c] + b;
    if b.len() == 0 {
        assert(s.last() == c);
        assert(b =~= Seq::<char>::empty());
    } else {
        assert(s.last() == b.last());
        assert(b.contains(b.last()));
        let front = b.drop_last();
        assert(s.drop_last() =~= a + seq![c] + front);
        if front.contains(c) {
            let w = choose|w: int| 0 <= w < front.len() && front[w] == c;
            assert(b[w] == c);
        }
        lemma_after_last_join(a, front, c);
        assert(front.push(b.last()) =~= b);
    }
}

/// `s` with every `from` turned into `to`.
pub open spec fn replaced(s: Seq<char>, from: char, to: char) -> Seq<char> {
    Seq::new(
        s.len(),
        |i: int|
            if s[i] == from {
                to
            } else {
                s[i]
            },
    )
}

/// `String::push` of std: the text grows by the one character at its end.
#[verifier::external_body]
pub(crate) fn push_char(s: &mut String, c: char)
    ensures
        final(s)@ == old(s)@.push(c),
{
    s.push(c);
}

/// Finds the first `c` in `s`.
pub fn find_first(s: &str, c: char) -> (k: usize)
    ensures
        k == first_index(s@, c),
{
    let n = s.unicode_len();
    let mut k: usize = 0;
    for x in it: s.chars()
        invariant
            it.seq() == s@,
            k == it.index(),
            n == s@.len(),
            forall|j: int| 0 <= j < k ==> s@[j] != c,
    {
        if x == c {
            proof {
                lemma_first_index_is(s@, c, k as int);
            }
            return k;
        }
        k += 1;
    }
    proof {
        lemma_first_index_is(s@, c, k as int);
    }
    k
}

/// The part of `s` after its last `c`; all of `s` where it holds none.
pub fn last_segment<'a>(s: &'a str, c: char) -> (r: &'a str)
    ensures
        r@ == after_last(s@, c),
{
    let n = s.unicode_len();
    let mut start: usize = 0;
    let mut k: usize = 0;
    for x in it: s.chars()
        invariant
            it.seq() == s@,
            k == it.index(),
            n == s@.len(),
            start <= k,
            s@.subrange(start as int, k as int) == after_last(s@.take(k as int), c),
    {
        assert(s@.take(k + 1).drop_last() =~= s@.take(k as int));
        k += 1;
        if x == c {
            start = k;
        }
        assert(s@.subrange(start as int, k as int) =~= after_last(s@.take(k as int), c));
    }
    assert(s@.take(k as int) =~= s@);
    s.substring_char(start, n)
}

/// A copy of `s` with every `from` turned into `to`.
pub fn replace_char(s: &str, from: char, to: char) -> (r: String)
    ensures
        r@ == replaced(s@, from, to),
{
    let mut r = String::new();
    for x in it: s.chars()
        invariant
            it.seq() == s@,
            r@ == replaced(s@.take(it.index() as int), from, to),
    {
        push_char(
            &mut r,
            if x == from {
                to
            } else {
                x
            },
        );
        assert(r@ =~= replaced(s@.take(it.index() + 1), from, to));
    }
    assert(s@.take(s@.len() as int) =~= s@);
    r
}

/// A copy of a list of strings.
pub fn copy_texts(v: &Vec<String>) -> (r: Vec<String>)
    ensures
        texts(r@) == texts(v@),
{
    let mut r: Vec<String> = Vec::new();
    let mut i: usize = 0;
    while i < v.len()
        invariant
            i <= v.len(),
            r@.len() == i,
            forall|j: int| 0 <= j < i ==> r@[j]@ == v@[j]@,
        decreases v.len() - i,
    {
        r.push(v[i].clone());
        i += 1;
    }
    assert(texts(r@) =~= texts(v@));
    r
}

/// A copy of a string that may be absent.
pub fn copy_opt_text(o: &Option<String>) -> (r: Option<String>)
    ensures
        opt_text(r) == opt_text(*o),
{
    match o {
        Some(s) => Some(s.clone()),
        None => None,
    }
}

/// The text that `str::to_lowercase` of std gives for `text`.
pub uninterp spec fn lowercase_text(text: Seq<char>) -> Seq<char>;

/// `str::to_lowercase` of std: the result is the lower-case form of the
/// text, as Unicode defines it. The contract names that form and says no
/// more of it.
#[verifier::external_body]
pub(crate) fn to_lowercase(text: &str) -> (lower: String)
    ensures
        lower@ == lowercase_text(text@),
{
    text.to_lowercase()
}

/// The extension of the file that `path` names: what follows the last dot
/// of the last segment of the path, where that segment has a dot that is
/// not its first character.
pub open spec fn file_extension(path: Seq<char>) -> Option<Seq<char>> {
    let name = after_last(path, '/');
    let extension = after_last(name, '.');
    if extension.len() + 1 < name.len() {
        Some(extension)
    } else {
        None
    }
}

/// `path` without the slashes at its front.
pub open spec fn without_leading_slashes(path: Seq<char>) -> Seq<char>
    decreases path.len(),
{
    if path.len() > 0 && path[0] == '/' {
        without_leading_slashes(path.drop_first())
    } else {
        path
    }
}

/// What is left of `path` behind `n` leading slashes is `path` without its
/// leading slashes, where the character behind them is no slash.
pub proof fn lemma_leading_slashes(path: Seq<char>, n: int)
    requires
        0 <= n <= path.len(),
        forall|j: int| 0 <= j < n ==> path[j] == '/',
        n < path.len() ==> path[n] != '/',
    ensures
        without_leading_slashes(path) == path.skip(n),
    decreases n,
{
    if n == 0 {
        assert(path.skip(0) =~= path);
    } else {
        let rest = path.drop_first();
        assert forall|j: int| 0 <= j < n - 1 implies rest[j] == '/' by {
            assert(rest[j] == path[j + 1]);
        }
        lemma_leading_slashes(rest, n - 1);
        assert(rest.skip(n - 1) =~= path.skip(n));
    }
}

/// The extension of the file that `path` names.
pub fn extension_of(path: &str) -> (r: Option<String>)
    ensures
        opt_text(r) == file_extension(path@),
{
    let name = last_segment(path, '/');
    let extension = last_segment(name, '.');
    let n = name.unicode_len();
    let e = extension.unicode_len();
    proof {
        lemma_after_last(name@, '.');
    }
    if e < n && e + 1 < n {
        Some(extension.to_owned())
    } else {
        None
    }
}

/// `path` without the slashes at its front.
pub fn trim_leading_slashes(path: &str) -> (r: &str)
    ensures
        r@ == without_leading_slashes(path@),
{
    let n = path.unicode_len();
    let mut k: usize = 0;
    for x in it: path.chars()
        invariant
            it.seq() == path@,
            k == it.index(),
            n == path@.len(),
            forall|j: int| 0 <= j < k ==> path@[j] == '/',
    {
        if x != '/' {
            proof {
                lemma_leading_slashes(path@, k as int);
            }
            return path.substring_char(k, n);
        }
        k += 1;
    }
    proof {
        lemma_leading_slashes(path@, k as int);
    }
    path.substring_char(k, n)
}

} // verus!
