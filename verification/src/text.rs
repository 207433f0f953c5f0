//! Searching, splitting and comparing text.
//!
//! Positions count characters. The specification functions speak of `Seq<char>`, the view of
//! `str` and `String`.

use vstd::prelude::*;
use vstd::string::*;
use vstd::utf8::*;

verus! {

/// Whether `pat` stands in `s` at position `i`.
pub open spec fn occurs_at(s: Seq<char>, pat: Seq<char>, i: int) -> bool {
    &&& 0 <= i
    &&& i + pat.len() <= s.len()
    &&& forall|k: int| 0 <= k < pat.len() ==> s[i + k] == #[trigger] pat[k]
}

/// Whether the leftmost occurrence of `pat` in `s` is at position `i`.
pub open spec fn first_at(s: Seq<char>, pat: Seq<char>, i: int) -> bool {
    &&& occurs_at(s, pat, i)
    &&& forall|j: int| 0 <= j < i ==> !#[trigger] occurs_at(s, pat, j)
}

/// Whether the rightmost occurrence of `pat` in `s` is at position `i`.
pub open spec fn last_at(s: Seq<char>, pat: Seq<char>, i: int) -> bool {
    &&& occurs_at(s, pat, i)
    &&& forall|j: int| j > i ==> !#[trigger] occurs_at(s, pat, j)
}

/// Whether `pat` occurs anywhere in `s`.
pub open spec fn occurs_in(s: Seq<char>, pat: Seq<char>) -> bool {
    exists|i: int| #[trigger] occurs_at(s, pat, i)
}

/// Whether `s` begins with `pat`.
pub open spec fn has_prefix(s: Seq<char>, pat: Seq<char>) -> bool {
    occurs_at(s, pat, 0)
}

/// Whether `s` ends with `pat`.
pub open spec fn has_suffix(s: Seq<char>, pat: Seq<char>) -> bool {
    occurs_at(s, pat, s.len() - pat.len())
}

/// The text before and after the leftmost occurrence of `pat`.
pub open spec fn split_first(s: Seq<char>, pat: Seq<char>) -> Option<(Seq<char>, Seq<char>)> {
    if occurs_in(s, pat) {
        let i = choose|i: int| first_at(s, pat, i);
        Some((s.take(i), s.skip(i + pat.len())))
    } else {
        None
    }
}

/// The text before and after the rightmost occurrence of `pat`.
pub open spec fn split_last(s: Seq<char>, pat: Seq<char>) -> Option<(Seq<char>, Seq<char>)> {
    if occurs_in(s, pat) {
        let i = choose|i: int| last_at(s, pat, i);
        Some((s.take(i), s.skip(i + pat.len())))
    } else {
        None
    }
}

/// The pieces of `s` between the separators `c`; a text without separators is its one piece.
pub open spec fn pieces(s: Seq<char>, c: char) -> Seq<Seq<char>>
    decreases s.len(),
{
    if s.len() == 0 {
        seq![s]
    } else if s.last() == c {
        pieces(s.drop_last(), c).push(Seq::<char>::empty())
    } else {
        let rest = pieces(s.drop_last(), c);
        rest.drop_last().push(rest.last().push(s.last()))
    }
}

/// The text with each `from` made a `to`.
pub open spec fn replaced(s: Seq<char>, from: char, to: char) -> Seq<char> {
    s.map_values(|c: char| if c == from { to } else { c })
}

/// The text without the characters `c` that it begins with.
pub open spec fn trimmed_start(s: Seq<char>, c: char) -> Seq<char>
    decreases s.len(),
{
    if s.len() > 0 && s[0] == c {
        trimmed_start(s.drop_first(), c)
    } else {
        s
    }
}

/// The text without the characters `c` that it ends with.
pub open spec fn trimmed_end(s: Seq<char>, c: char) -> Seq<char>
    decreases s.len(),
{
    if s.len() > 0 && s.last() == c {
        trimmed_end(s.drop_last(), c)
    } else {
        s
    }
}

/// Whether the first byte string stands before the second in the dictionary.
pub open spec fn bytes_before(a: Seq<u8>, b: Seq<u8>) -> bool
    decreases a.len(),
{
    if b.len() == 0 {
        false
    } else if a.len() == 0 {
        true
    } else {
        a[0] < b[0] || (a[0] == b[0] && bytes_before(a.drop_first(), b.drop_first()))
    }
}

/// How many bytes the text takes in UTF-8.
pub open spec fn byte_len(s: Seq<char>) -> nat {
    encode_utf8(s).len()
}

/// The text that the first `n` bytes of `s` encode.
pub open spec fn byte_prefix(s: Seq<char>, n: int) -> Seq<char> {
    decode_utf8(encode_utf8(s).take(n))
}

/// Whether byte `n` of `s` begins a character or ends the text.
pub open spec fn cuts_at_byte(s: Seq<char>, n: int) -> bool {
    &&& n <= byte_len(s)
    &&& is_char_boundary(encode_utf8(s), n)
}

/// How many bytes the first `i` characters take: where character `i` begins.
pub open spec fn offset(s: Seq<char>, i: int) -> int {
    byte_len(s.take(i)) as int
}

/// Whether byte `b` begins a character or ends the text.
pub open spec fn is_offset(s: Seq<char>, b: int) -> bool {
    exists|i: int| 0 <= i <= s.len() && #[trigger] offset(s, i) == b
}

/// The character that begins at byte `b`.
pub open spec fn index_at(s: Seq<char>, b: int) -> int {
    choose|i: int| 0 <= i <= s.len() && #[trigger] offset(s, i) == b
}

/// The texts of a pair of strings.
pub open spec fn pair_text(p: (String, String)) -> (Seq<char>, Seq<char>) {
    (p.0@, p.1@)
}

/// The texts of pairs of strings.
pub open spec fn pair_texts(v: Seq<(String, String)>) -> Seq<(Seq<char>, Seq<char>)> {
    v.map_values(|p: (String, String)| pair_text(p))
}

/// The text of an optional string.
pub open spec fn opt_text(o: Option<String>) -> Option<Seq<char>> {
    match o {
        Some(t) => Some(t@),
        None => None,
    }
}

/// The text of an optional string slice.
pub open spec fn opt_str(o: Option<&str>) -> Option<Seq<char>> {
    match o {
        Some(t) => Some(t@),
        None => None,
    }
}

/// The value of the first pair whose name is `name`.
pub open spec fn value_of(pairs: Seq<(Seq<char>, Seq<char>)>, name: Seq<char>) -> Option<Seq<char>>
    decreases pairs.len(),
{
    if pairs.len() == 0 {
        None
    } else if pairs[0].0 == name {
        Some(pairs[0].1)
    } else {
        value_of(pairs.drop_first(), name)
    }
}

/// A text is split at one place only.
pub proof fn lemma_split_first(s: Seq<char>, pat: Seq<char>, i: int)
    requires
        first_at(s, pat, i),
    ensures
        split_first(s, pat) == Some((s.take(i), s.skip(i + pat.len()))),
{
    let j = choose|j: int| first_at(s, pat, j);
    assert(occurs_at(s, pat, i) && occurs_at(s, pat, j));
    assert(i == j);
}

/// A text is split from the right at one place only.
pub proof fn lemma_split_last(s: Seq<char>, pat: Seq<char>, i: int)
    requires
        last_at(s, pat, i),
    ensures
        split_last(s, pat) == Some((s.take(i), s.skip(i + pat.len()))),
{
    let j = choose|j: int| last_at(s, pat, j);
    assert(occurs_at(s, pat, i) && occurs_at(s, pat, j));
    assert(i == j);
}

/// A pattern that occurs has a leftmost occurrence.
pub proof fn lemma_first_exists(s: Seq<char>, pat: Seq<char>, i: int) -> (j: int)
    requires
        occurs_at(s, pat, i),
    ensures
        first_at(s, pat, j),
        0 <= j <= i,
    decreases i,
{
    if exists|k: int| 0 <= k < i && occurs_at(s, pat, k) {
        let k = choose|k: int| 0 <= k < i && occurs_at(s, pat, k);
        lemma_first_exists(s, pat, k)
    } else {
        i
    }
}

/// A pattern that occurs has a rightmost occurrence.
pub proof fn lemma_last_exists(s: Seq<char>, pat: Seq<char>, i: int) -> (j: int)
    requires
        occurs_at(s, pat, i),
    ensures
        last_at(s, pat, j),
        i <= j,
    decreases s.len() - i,
{
    if exists|k: int| k > i && occurs_at(s, pat, k) {
        let k = choose|k: int| k > i && occurs_at(s, pat, k);
        lemma_last_exists(s, pat, k)
    } else {
        i
    }
}

/// Splitting at the leftmost occurrence loses nothing: the two parts around the pattern are the
/// text, and the pattern does not occur before the place of the split.
pub proof fn lemma_split_first_joins(s: Seq<char>, pat: Seq<char>)
    ensures
        split_first(s, pat) matches Some((before, after)) ==> {
            &&& s == before + pat + after
            &&& first_at(s, pat, before.len() as int)
        },
        split_first(s, pat) is None <==> !occurs_in(s, pat),
{
    if occurs_in(s, pat) {
        let i = choose|i: int| occurs_at(s, pat, i);
        let j = lemma_first_exists(s, pat, i);
        lemma_split_first(s, pat, j);
        assert(s =~= s.take(j) + pat + s.skip(j + pat.len()));
    }
}

/// Splitting at the rightmost occurrence loses nothing.
pub proof fn lemma_split_last_joins(s: Seq<char>, pat: Seq<char>)
    ensures
        split_last(s, pat) matches Some((before, after)) ==> {
            &&& s == before + pat + after
            &&& last_at(s, pat, before.len() as int)
        },
        split_last(s, pat) is None <==> !occurs_in(s, pat),
{
    if occurs_in(s, pat) {
        let i = choose|i: int| occurs_at(s, pat, i);
        let j = lemma_last_exists(s, pat, i);
        lemma_split_last(s, pat, j);
        assert(s =~= s.take(j) + pat + s.skip(j + pat.len()));
    }
}

/// The characters of `s`, in order.
pub fn chars(s: &str) -> (v: Vec<char>)
    ensures
        v@ == s@,
{
    let mut v: Vec<char> = Vec::new();
    for c in it: s.chars()
        invariant
            it.seq() == s@,
            v@ == s@.take(it.index()),
    {
        v.push(c);
        assert(s@.take(it.index() + 1) =~= s@.take(it.index()).push(c));
    }
    assert(s@.take(s@.len() as int) =~= s@);
    v
}

/// Whether the two texts are equal.
pub fn same(a: &str, b: &str) -> (r: bool)
    ensures
        r == (a@ == b@),
{
    let x = a.as_bytes();
    let y = b.as_bytes();
    proof {
        encode_utf8_decode_utf8(a@);
        encode_utf8_decode_utf8(b@);
    }
    if x.len() != y.len() {
        return false;
    }
    let mut i: usize = 0;
    while i < x.len()
        invariant
            x@ == encode_utf8(a@),
            y@ == encode_utf8(b@),
            i <= x.len() == y.len(),
            forall|j: int| 0 <= j < i ==> x@[j] == y@[j],
        decreases x.len() - i,
    {
        if x[i] != y[i] {
            return false;
        }
        i += 1;
    }
    assert(x@ =~= y@);
    true
}

/// Whether `p` stands in `v` at position `i`.
pub fn stands_at(v: &Vec<char>, p: &Vec<char>, i: usize) -> (r: bool)
    ensures
        r == occurs_at(v@, p@, i as int),
{
    if p.len() > v.len() || i > v.len() - p.len() {
        return false;
    }
    let mut k: usize = 0;
    while k < p.len()
        invariant
            i + p.len() <= v.len(),
            k <= p.len(),
            forall|j: int| 0 <= j < k ==> v@[i + j] == #[trigger] p@[j],
        decreases p.len() - k,
    {
        if v[i + k] != p[k] {
            assert(v@[i + k] != p@[k as int]);
            return false;
        }
        k += 1;
    }
    true
}

/// The position of the leftmost occurrence of `pat`.
pub fn find(s: &str, pat: &str) -> (r: Option<usize>)
    ensures
        r matches Some(i) ==> first_at(s@, pat@, i as int),
        r is None ==> !occurs_in(s@, pat@),
{
    let v = chars(s);
    let p = chars(pat);
    if p.len() > v.len() {
        return None;
    }
    let last = v.len() - p.len();
    let mut i: usize = 0;
    while i <= last
        invariant
            v@ == s@,
            p@ == pat@,
            last + p.len() == v.len(),
            i <= last + 1,
            forall|j: int| 0 <= j < i ==> !#[trigger] occurs_at(s@, pat@, j),
        decreases last + 1 - i,
    {
        if stands_at(&v, &p, i) {
            return Some(i);
        }
        if i == last {
            assert(forall|j: int| !#[trigger] occurs_at(s@, pat@, j));
            return None;
        }
        i += 1;
    }
    None
}

/// The position of the rightmost occurrence of `pat`.
pub fn rfind(s: &str, pat: &str) -> (r: Option<usize>)
    ensures
        r matches Some(i) ==> last_at(s@, pat@, i as int),
        r is None ==> !occurs_in(s@, pat@),
{
    let v = chars(s);
    let p = chars(pat);
    if p.len() > v.len() {
        return None;
    }
    let mut i: usize = v.len() - p.len();
    loop
        invariant
            v@ == s@,
            p@ == pat@,
            i + p.len() <= v.len(),
            forall|j: int| j > i ==> !#[trigger] occurs_at(s@, pat@, j),
        decreases i,
    {
        if stands_at(&v, &p, i) {
            return Some(i);
        }
        if i == 0 {
            assert(forall|j: int| !#[trigger] occurs_at(s@, pat@, j));
            return None;
        }
        i -= 1;
    }
}

/// The text before and after the leftmost occurrence of `pat`.
pub fn split_once<'a>(s: &'a str, pat: &str) -> (r: Option<(&'a str, &'a str)>)
    ensures
        r is Some <==> split_first(s@, pat@) is Some,
        r matches Some((before, after)) ==> split_first(s@, pat@) == Some((before@, after@)),
{
    match find(s, pat) {
        None => None,
        Some(i) => {
            proof {
                lemma_split_first(s@, pat@, i as int);
            }
            let n = s.unicode_len();
            let k = i + pat.unicode_len();
            Some((s.substring_char(0, i), s.substring_char(k, n)))
        },
    }
}

/// The text before and after the rightmost occurrence of `pat`.
pub fn rsplit_once<'a>(s: &'a str, pat: &str) -> (r: Option<(&'a str, &'a str)>)
    ensures
        r is Some <==> split_last(s@, pat@) is Some,
        r matches Some((before, after)) ==> split_last(s@, pat@) == Some((before@, after@)),
{
    match rfind(s, pat) {
        None => None,
        Some(i) => {
            proof {
                lemma_split_last(s@, pat@, i as int);
            }
            let n = s.unicode_len();
            let k = i + pat.unicode_len();
            Some((s.substring_char(0, i), s.substring_char(k, n)))
        },
    }
}

/// Whether `pat` occurs anywhere in `s`.
pub fn contains(s: &str, pat: &str) -> (r: bool)
    ensures
        r == occurs_in(s@, pat@),
{
    find(s, pat).is_some()
}

/// Whether `s` begins with `pat`.
pub fn starts_with(s: &str, pat: &str) -> (r: bool)
    ensures
        r == has_prefix(s@, pat@),
{
    stands_at(&chars(s), &chars(pat), 0)
}

/// Whether `s` ends with `pat`.
pub fn ends_with(s: &str, pat: &str) -> (r: bool)
    ensures
        r == has_suffix(s@, pat@),
{
    let v = chars(s);
    let p = chars(pat);
    if p.len() > v.len() {
        return false;
    }
    stands_at(&v, &p, v.len() - p.len())
}

/// How `pieces` grows by the next character.
proof fn lemma_pieces_step(s: Seq<char>, c: char, i: int)
    requires
        0 <= i < s.len(),
    ensures
        s[i] == c ==> pieces(s.take(i + 1), c) == pieces(s.take(i), c).push(Seq::<char>::empty()),
        s[i] != c ==> pieces(s.take(i + 1), c) == pieces(s.take(i), c).drop_last().push(
            pieces(s.take(i), c).last().push(s[i]),
        ),
{
    assert(s.take(i + 1).drop_last() =~= s.take(i));
    assert(s.take(i + 1).last() == s[i]);
}

/// A text has at least one piece.
pub proof fn lemma_pieces_nonempty(s: Seq<char>, c: char)
    ensures
        pieces(s, c).len() > 0,
    decreases s.len(),
{
    if s.len() > 0 {
        lemma_pieces_nonempty(s.drop_last(), c);
    }
}

/// The pieces of `s` between the separators `c`.
pub fn split<'a>(s: &'a str, c: char) -> (r: Vec<&'a str>)
    ensures
        r@.map_values(|p: &str| p@) == pieces(s@, c),
{
    let v = chars(s);
    let mut r: Vec<&'a str> = Vec::new();
    let mut start: usize = 0;
    let mut i: usize = 0;
    proof {
        assert(s@.take(0) =~= Seq::<char>::empty());
        assert(s@.subrange(0, 0) =~= Seq::<char>::empty());
        assert(pieces(s@.take(0), c) =~= r@.map_values(|p: &str| p@).push(s@.subrange(0, 0)));
    }
    while i < v.len()
        invariant
            v@ == s@,
            start <= i <= v.len(),
            pieces(s@.take(i as int), c) == r@.map_values(|p: &str| p@).push(
                s@.subrange(start as int, i as int),
            ),
        decreases v.len() - i,
    {
        proof {
            lemma_pieces_step(s@, c, i as int);
        }
        let ghost before = r@.map_values(|p: &str| p@);
        let ghost current = s@.subrange(start as int, i as int);
        if v[i] == c {
            r.push(s.substring_char(start, i));
            start = i + 1;
            proof {
                assert(r@.map_values(|p: &str| p@) =~= before.push(current));
                assert(s@.subrange(start as int, i + 1) =~= Seq::<char>::empty());
            }
        } else {
            proof {
                assert(before.push(current).drop_last() =~= before);
                assert(before.push(current).last() == current);
                assert(current.push(s@[i as int]) =~= s@.subrange(start as int, i + 1));
            }
        }
        i += 1;
    }
    let ghost before = r@.map_values(|p: &str| p@);
    r.push(s.substring_char(start, v.len()));
    proof {
        assert(s@.take(i as int) =~= s@);
        assert(r@.map_values(|p: &str| p@) =~= before.push(s@.subrange(start as int, i as int)));
    }
    r
}

/// The text with each `from` made the one character that `to` holds.
pub fn replace_char(s: &str, from: char, to: &str) -> (r: String)
    requires
        to@.len() == 1,
    ensures
        r@ == replaced(s@, from, to@[0]),
{
    let v = chars(s);
    let mut r = String::new();
    let mut i: usize = 0;
    while i < v.len()
        invariant
            v@ == s@,
            i <= v.len(),
            to@.len() == 1,
            r@ == replaced(s@, from, to@[0]).take(i as int),
        decreases v.len() - i,
    {
        if v[i] == from {
            r.append(to);
        } else {
            r.append(s.substring_char(i, i + 1));
        }
        i += 1;
        assert(r@ =~= replaced(s@, from, to@[0]).take(i as int));
    }
    assert(replaced(s@, from, to@[0]).take(i as int) =~= replaced(s@, from, to@[0]));
    r
}

/// The text that the first `n` bytes of `s` encode.
pub fn first_bytes<'a>(s: &'a str, n: usize) -> (r: &'a str)
    requires
        cuts_at_byte(s@, n as int),
    ensures
        r@ == byte_prefix(s@, n as int),
        encode_utf8(r@) == encode_utf8(s@).take(n as int),
{
    let (head, _) = s.split_at(n);
    proof {
        encode_utf8_decode_utf8(head@);
        assert(encode_utf8(s@).take(n as int) =~= encode_utf8(s@).subrange(0, n as int));
    }
    head
}

/// Texts one behind the other are encoded one behind the other.
pub proof fn lemma_encode_joined(a: Seq<char>, b: Seq<char>)
    ensures
        encode_utf8(a + b) == encode_utf8(a) + encode_utf8(b),
    decreases a.len(),
{
    if a.len() == 0 {
        assert(a + b =~= b);
        assert(encode_utf8(a) + encode_utf8(b) =~= encode_utf8(b));
    } else {
        lemma_encode_joined(a.drop_first(), b);
        assert((a + b).drop_first() =~= a.drop_first() + b);
        assert((a + b)[0] == a[0]);
        assert(encode_utf8(a + b) =~= encode_utf8(a) + encode_utf8(b));
    }
}

/// The number of a character.
proof fn lemma_char_number(c: char)
    ensures
        c as u32 as int == c as int,
{
}

/// Where characters begin: an ASCII character is its byte, and of another one the first byte says
/// how many there are.
pub proof fn lemma_offset_step(s: Seq<char>, i: int)
    requires
        0 <= i < s.len(),
    ensures
        0 <= offset(s, i) < offset(s, i + 1) <= byte_len(s),
        ({
            let b = encode_utf8(s)[offset(s, i)];
            &&& (b < 0x80) == (s[i] < '\u{80}')
            &&& b < 0x80 ==> s[i] as int == b && offset(s, i + 1) == offset(s, i) + 1
            &&& b >= 0x80 ==> offset(s, i + 1) == offset(s, i) + if b < 0xe0 {
                2int
            } else if b < 0xf0 {
                3
            } else {
                4
            }
            &&& !is_continuation_byte(b)
        }),
{
    let head = s.take(i);
    let tail = s.skip(i);
    lemma_encode_joined(head, tail);
    assert(head + tail =~= s);
    encode_utf8_first_scalar(tail);
    let c = s[i];
    char_is_scalar(c);
    lemma_char_number(c);
    let first = seq![s[i]];
    lemma_encode_joined(head, first);
    assert(head + first =~= s.take(i + 1));
    assert(first.drop_first() =~= Seq::<char>::empty());
    assert(encode_utf8(Seq::<char>::empty()) =~= Seq::<u8>::empty());
    assert(encode_utf8(first) =~= encode_scalar(s[i] as u32));
    let bytes = encode_utf8(tail);
    let b = bytes[0];
    assert(encode_utf8(s)[offset(s, i)] == b);
    assert(encode_utf8(tail) == encode_scalar(s[i] as u32) + encode_utf8(tail.drop_first()));
    if b < 0x80 {
        assert((b & 0x7f) == b) by (bit_vector)
            requires
                b < 0x80,
        ;
    }
}

/// A character begins behind those before it.
pub proof fn lemma_offset_order(s: Seq<char>, i: int, j: int)
    requires
        0 <= i <= j <= s.len(),
    ensures
        offset(s, i) + (j - i) <= offset(s, j) <= byte_len(s),
        offset(s, 0) == 0,
        offset(s, s.len() as int) == byte_len(s),
    decreases j - i,
{
    assert(s.take(0) =~= Seq::<char>::empty());
    assert(s.take(s.len() as int) =~= s);
    if i < j {
        lemma_offset_step(s, j - 1);
        lemma_offset_order(s, i, j - 1);
    } else if j < s.len() {
        lemma_offset_step(s, j);
    }
}

/// At each byte begins one character at most.
pub proof fn lemma_index_at(s: Seq<char>, i: int)
    requires
        0 <= i <= s.len(),
    ensures
        is_offset(s, offset(s, i)),
        index_at(s, offset(s, i)) == i,
{
    let k = index_at(s, offset(s, i));
    assert(0 <= k <= s.len() && offset(s, k) == offset(s, i));
    if k < i {
        lemma_offset_order(s, k, i);
    } else if i < k {
        lemma_offset_order(s, i, k);
    }
}

/// Where characters begin a text can be cut.
proof fn lemma_offset_cuts(s: Seq<char>, i: int)
    requires
        0 <= i <= s.len(),
    ensures
        cuts_at_byte(s, offset(s, i)),
        encode_utf8(s).take(offset(s, i)) == encode_utf8(s.take(i)),
        encode_utf8(s).skip(offset(s, i)) == encode_utf8(s.skip(i)),
{
    lemma_encode_joined(s.take(i), s.skip(i));
    assert(s.take(i) + s.skip(i) =~= s);
    assert(encode_utf8(s).take(offset(s, i)) =~= encode_utf8(s.take(i)));
    assert(encode_utf8(s).skip(offset(s, i)) =~= encode_utf8(s.skip(i)));
    encode_utf8_valid_utf8(s);
    if i < s.len() {
        lemma_offset_step(s, i);
        is_char_boundary_iff_not_is_continuation_byte(encode_utf8(s), offset(s, i));
    } else {
        assert(s.take(i) =~= s);
        is_char_boundary_start_end_of_seq(encode_utf8(s));
    }
}

/// The text between two bytes.
pub fn slice<'a>(s: &'a str, a: usize, b: usize) -> (r: &'a str)
    requires
        is_offset(s@, a as int),
        is_offset(s@, b as int),
        a <= b,
    ensures
        r@ == s@.subrange(index_at(s@, a as int), index_at(s@, b as int)),
{
    let ghost i = index_at(s@, a as int);
    let ghost j = index_at(s@, b as int);
    proof {
        if j < i {
            lemma_offset_order(s@, j, i);
        }
        lemma_offset_cuts(s@, i);
        lemma_offset_cuts(s@, j);
    }
    let (head, _) = s.split_at(b);
    proof {
        assert(head@ == s@.take(j)) by {
            encode_utf8_decode_utf8(head@);
            encode_utf8_decode_utf8(s@.take(j));
            assert(encode_utf8(head@) =~= encode_utf8(s@).take(b as int));
        }
        assert(head@.take(i) =~= s@.take(i));
        lemma_offset_cuts(head@, i);
    }
    let (_, r) = head.split_at(a);
    proof {
        assert(r@ == head@.skip(i)) by {
            encode_utf8_decode_utf8(r@);
            encode_utf8_decode_utf8(head@.skip(i));
            assert(encode_utf8(r@) =~= encode_utf8(head@).skip(a as int));
        }
        assert(head@.skip(i) =~= s@.subrange(i, j));
    }
    r
}

/// The text without the characters `c` that it begins with.
pub fn trim_start_matches<'a>(s: &'a str, c: char) -> (r: &'a str)
    ensures
        r@ == trimmed_start(s@, c),
{
    let v = chars(s);
    let mut i: usize = 0;
    assert(s@.skip(0) =~= s@);
    while i < v.len() && v[i] == c
        invariant
            v@ == s@,
            i <= v.len(),
            trimmed_start(s@, c) == trimmed_start(s@.skip(i as int), c),
        decreases v.len() - i,
    {
        assert(s@.skip(i as int).drop_first() =~= s@.skip(i + 1));
        i += 1;
    }
    assert(s@.skip(i as int) =~= s@.subrange(i as int, v@.len() as int));
    s.substring_char(i, v.len())
}

/// The text without the characters `c` that it ends with.
pub fn trim_end_matches<'a>(s: &'a str, c: char) -> (r: &'a str)
    ensures
        r@ == trimmed_end(s@, c),
{
    let v = chars(s);
    let mut n: usize = v.len();
    assert(s@.take(n as int) =~= s@);
    while n > 0 && v[n - 1] == c
        invariant
            v@ == s@,
            n <= v.len(),
            trimmed_end(s@, c) == trimmed_end(s@.take(n as int), c),
        decreases n,
    {
        assert(s@.take(n as int).drop_last() =~= s@.take(n - 1));
        n -= 1;
    }
    assert(s@.take(n as int) =~= s@.subrange(0, n as int));
    s.substring_char(0, n)
}

/// Whether the first text stands before the second in the dictionary of byte strings.
pub fn stands_before(a: &str, b: &str) -> (r: bool)
    ensures
        r == bytes_before(encode_utf8(a@), encode_utf8(b@)),
{
    let x = a.as_bytes();
    let y = b.as_bytes();
    let mut i: usize = 0;
    proof {
        assert(x@.skip(0) =~= x@);
        assert(y@.skip(0) =~= y@);
    }
    while i < x.len() && i < y.len()
        invariant
            x@ == encode_utf8(a@),
            y@ == encode_utf8(b@),
            i <= x.len(),
            i <= y.len(),
            bytes_before(x@, y@) == bytes_before(x@.skip(i as int), y@.skip(i as int)),
        decreases x.len() - i,
    {
        proof {
            assert(x@.skip(i as int).drop_first() =~= x@.skip(i + 1));
            assert(y@.skip(i as int).drop_first() =~= y@.skip(i + 1));
        }
        if x[i] != y[i] {
            return x[i] < y[i];
        }
        i += 1;
    }
    i < y.len()
}

/// Of two different byte strings one stands before the other, and not the other way round.
pub proof fn lemma_bytes_before_total(a: Seq<u8>, b: Seq<u8>)
    ensures
        a != b ==> bytes_before(a, b) || bytes_before(b, a),
        !(bytes_before(a, b) && bytes_before(b, a)),
        !bytes_before(a, a),
    decreases a.len(),
{
    if a.len() > 0 && b.len() > 0 {
        lemma_bytes_before_total(a.drop_first(), b.drop_first());
        lemma_bytes_before_total(a.drop_first(), a.drop_first());
        if a[0] == b[0] && a.drop_first() == b.drop_first() {
            assert(a =~= seq![a[0]] + a.drop_first());
            assert(b =~= seq![b[0]] + b.drop_first());
        }
    } else if a.len() > 0 {
        lemma_bytes_before_total(a.drop_first(), a.drop_first());
    } else if b.len() == 0 {
        assert(a =~= b);
    }
}

/// The dictionary's order is transitive.
pub proof fn lemma_bytes_before_transitive(a: Seq<u8>, b: Seq<u8>, c: Seq<u8>)
    requires
        bytes_before(a, b),
        bytes_before(b, c),
    ensures
        bytes_before(a, c),
    decreases a.len(),
{
    if a.len() > 0 && a[0] == b[0] && b[0] == c[0] {
        lemma_bytes_before_transitive(a.drop_first(), b.drop_first(), c.drop_first());
    }
}

/// A text is split at a character that does not occur before.
pub proof fn lemma_split_at(before: Seq<char>, pat: Seq<char>, after: Seq<char>)
    requires
        pat.len() == 1,
        !before.contains(pat[0]),
    ensures
        split_first(before + pat + after, pat) == Some((before, after)),
{
    let s = before + pat + after;
    let n = before.len() as int;
    assert(s[n + 0] == pat[0]);
    assert(occurs_at(s, pat, n));
    assert forall|j: int| 0 <= j < n implies !#[trigger] occurs_at(s, pat, j) by {
        assert(s[j + 0] == before[j]);
        assert(before.contains(before[j]));
    }
    lemma_split_first(s, pat, n);
    assert(s.take(n) =~= before);
    assert(s.skip(n + 1) =~= after);
}

/// A text is not split at a character that it does not hold.
pub proof fn lemma_split_nowhere(s: Seq<char>, pat: Seq<char>)
    requires
        pat.len() == 1,
        !s.contains(pat[0]),
    ensures
        split_first(s, pat) is None,
{
    assert forall|j: int| !#[trigger] occurs_at(s, pat, j) by {
        if occurs_at(s, pat, j) {
            assert(s[j + 0] == pat[0]);
            assert(s.contains(s[j]));
        }
    }
}

/// The pieces of two texts with a separator between them are those of the one and of the other.
pub proof fn lemma_pieces_around(a: Seq<char>, b: Seq<char>, c: char)
    ensures
        pieces(a + seq![c] + b, c) == pieces(a, c) + pieces(b, c),
    decreases b.len(),
{
    let s = a + seq![c] + b;
    lemma_pieces_nonempty(a, c);
    lemma_pieces_nonempty(b, c);
    if b.len() == 0 {
        assert(s.drop_last() =~= a);
        assert(b =~= Seq::<char>::empty());
        assert(pieces(s, c) =~= pieces(a, c) + pieces(b, c));
    } else {
        let rest = b.drop_last();
        lemma_pieces_around(a, rest, c);
        lemma_pieces_nonempty(rest, c);
        assert(s.drop_last() =~= a + seq![c] + rest);
        assert(s.last() == b.last());
        assert(pieces(s, c) =~= pieces(a, c) + pieces(b, c));
    }
}

/// A text without separators is one piece.
pub proof fn lemma_one_piece(s: Seq<char>, c: char)
    requires
        !s.contains(c),
    ensures
        pieces(s, c) == seq![s],
    decreases s.len(),
{
    if s.len() > 0 {
        let init = s.drop_last();
        assert(s.last() == s[s.len() - 1]);
        assert(s.contains(s.last()));
        assert(!init.contains(c)) by {
            if init.contains(c) {
                let i = choose|i: int| 0 <= i < init.len() && init[i] == c;
                assert(s[i] == c);
            }
        }
        lemma_one_piece(init, c);
        assert(init.push(s.last()) =~= s);
        assert(pieces(s, c) =~= seq![s]);
    }
}

/// Whether `at` lists the numbers below `n` that are wanted: all of them, each once, in order.
pub open spec fn lists(at: Seq<int>, n: int, wanted: spec_fn(int) -> bool) -> bool {
    &&& forall|a: int| 0 <= a < at.len() ==> 0 <= #[trigger] at[a] < n && wanted(at[a])
    &&& forall|a: int, b: int| 0 <= a < b < at.len() ==> #[trigger] at[a] < #[trigger] at[b]
    &&& forall|k: int| 0 <= k < n && #[trigger] wanted(k) ==> at.contains(k)
}

/// The list goes on with the next number, if it is wanted.
pub proof fn lemma_lists_next(at: Seq<int>, n: int, wanted: spec_fn(int) -> bool)
    requires
        0 <= n,
        lists(at, n, wanted),
    ensures
        lists(
            if wanted(n) {
                at.push(n)
            } else {
                at
            },
            n + 1,
            wanted,
        ),
{
    let more = if wanted(n) {
        at.push(n)
    } else {
        at
    };
    assert forall|k: int| 0 <= k < n + 1 && #[trigger] wanted(k) implies more.contains(k) by {
        if k == n {
            assert(more[at.len() as int] == n);
        } else {
            let a = choose|a: int| 0 <= a < at.len() && at[a] == k;
            assert(more[a] == k);
        }
    }
    assert forall|a: int, b: int| 0 <= a < b < more.len() implies #[trigger] more[a]
        < #[trigger] more[b] by {
        assert(more[a] == at[a]);
        if b < at.len() {
            assert(more[b] == at[b]);
        }
    }
}

/// What is in neither of two texts is not in both together.
pub proof fn lemma_in_neither(a: Seq<char>, b: Seq<char>, c: char)
    requires
        !a.contains(c),
        !b.contains(c),
    ensures
        !(a + b).contains(c),
{
    let s = a + b;
    if s.contains(c) {
        let i = choose|i: int| 0 <= i < s.len() && s[i] == c;
        if i < a.len() {
            assert(a[i] == c);
        } else {
            assert(b[i - a.len()] == c);
        }
    }
}

} // verus!
