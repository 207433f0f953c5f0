//! Paths as bytes, with `/` between the components.

use vstd::prelude::*;
use vstd::slice::*;

verus! {

/// The separator.
pub const SLASH: u8 = 47;

/// The name of a directory in itself.
pub const DOT: u8 = 46;

/// Whether the path starts at the root.
pub open spec fn is_absolute(s: Seq<u8>) -> bool {
    s.len() > 0 && s[0] == SLASH
}

/// The position behind the last separator, or zero.
pub open spec fn name_start(s: Seq<u8>) -> int
    decreases s.len(),
{
    if s.len() == 0 || s.last() == SLASH {
        s.len() as int
    } else {
        name_start(s.drop_last())
    }
}

/// Whether what stands between two separators is a component: it is not empty, and not a `.`
/// anywhere but at the very start.
pub open spec fn counts(s: Seq<u8>, start: int) -> bool {
    start < s.len() && (s.skip(start) != seq![DOT] || start == 0)
}

/// The ranges of the components in front of position `start`, which stands behind a separator or
/// at the very start.
pub open spec fn ranges_before(s: Seq<u8>, start: int) -> Seq<(int, int)>
    decreases s.len(), 0int, start,
{
    if start <= 0 || start > s.len() {
        seq![]
    } else if start == 1 {
        seq![(0int, 1int)]
    } else {
        ranges(s.take(start - 1))
    }
}

/// The ranges of the components of a path, the root being one.
pub open spec fn ranges(s: Seq<u8>) -> Seq<(int, int)>
    decreases s.len(), 1int, 0int,
{
    let start = name_start(s);
    let before = ranges_before(s, start);
    if counts(s, start) {
        before.push((start, s.len() as int))
    } else {
        before
    }
}

/// The components of a path. Two paths name the same thing if their components are equal.
pub open spec fn components(s: Seq<u8>) -> Seq<Seq<u8>> {
    ranges(s).map_values(|r: (int, int)| s.subrange(r.0, r.1))
}

/// Whether the path is the root, and nothing more.
pub open spec fn is_root(s: Seq<u8>) -> bool {
    is_absolute(s) && ranges(s).len() == 1
}

/// The path without its last component.
pub open spec fn parent(s: Seq<u8>) -> Option<Seq<u8>> {
    let r = ranges(s);
    if r.len() == 0 || is_root(s) {
        None
    } else if r.len() == 1 {
        Some(seq![])
    } else {
        Some(s.take(r[r.len() - 2].1))
    }
}

/// A path below another, or in its place if it is absolute.
pub open spec fn joined(a: Seq<u8>, b: Seq<u8>) -> Seq<u8> {
    if is_absolute(b) {
        b
    } else if a.len() > 0 && a.last() != SLASH {
        a.push(SLASH) + b
    } else {
        a + b
    }
}

/// Components, one below the other.
pub open spec fn joined_all(names: Seq<Seq<u8>>) -> Seq<u8>
    decreases names.len(),
{
    if names.len() == 0 {
        seq![]
    } else {
        joined(joined_all(names.drop_last()), names.last())
    }
}

/// The path and the directories above it, from the outermost to the path itself. The empty path
/// is none of them.
pub open spec fn lineage(s: Seq<u8>) -> Seq<Seq<u8>> {
    let r = ranges(s);
    Seq::new(r.len(), |k: int| if k == r.len() - 1 { s } else { s.take(r[k].1) })
}

proof fn lemma_name_start(s: Seq<u8>)
    ensures
        0 <= name_start(s) <= s.len(),
        name_start(s) > 0 ==> s[name_start(s) - 1] == SLASH,
        forall|i: int| name_start(s) <= i < s.len() ==> s[i] != SLASH,
    decreases s.len(),
{
    if s.len() == 0 || s.last() == SLASH {
    } else {
        lemma_name_start(s.drop_last());
        assert forall|i: int| name_start(s) <= i < s.len() implies s[i] != SLASH by {
            if i < s.len() - 1 {
                assert(s.drop_last()[i] == s[i]);
            }
        }
    }
}

proof fn lemma_name_start_is(s: Seq<u8>, start: int)
    requires
        0 <= start <= s.len(),
        start > 0 ==> s[start - 1] == SLASH,
        forall|i: int| start <= i < s.len() ==> s[i] != SLASH,
    ensures
        name_start(s) == start,
{
    lemma_name_start(s);
    let n = name_start(s);
    if n < start {
        assert(s[start - 1] != SLASH);
    } else if n > start {
        assert(s[n - 1] != SLASH);
    }
}

/// The components lie one behind the other, and none but the root holds a separator.
pub proof fn lemma_ranges(s: Seq<u8>)
    ensures
        forall|k: int| 0 <= k < ranges(s).len() ==> 0 <= (#[trigger] ranges(s)[k]).0
            < ranges(s)[k].1 <= s.len(),
        forall|k: int, l: int|
            0 <= k < l < ranges(s).len() ==> (#[trigger] ranges(s)[k]).1 <= (#[trigger] ranges(
                s,
            )[l]).0,
        forall|k: int|
            0 <= k < ranges(s).len() && (#[trigger] ranges(s)[k]).0 == 0 && is_absolute(s)
                ==> ranges(s)[k] == (0int, 1int),
        is_absolute(s) ==> ranges(s).len() > 0 && ranges(s)[0] == (0int, 1int),
        ranges(s).len() == 0 ==> s.len() == 0,
        forall|k: int| 0 < k < ranges(s).len() ==> s[(#[trigger] ranges(s)[k]).0 - 1] == SLASH,
        forall|k: int, i: int|
            0 <= k < ranges(s).len() && (#[trigger] ranges(s)[k]).0 <= i < ranges(s)[k].1 && (i > 0
                || !is_absolute(s)) ==> #[trigger] s[i] != SLASH,
    decreases s.len(),
{
    lemma_name_start(s);
    let start = name_start(s);
    if start > 1 {
        let t = s.take(start - 1);
        lemma_ranges(t);
        assert(is_absolute(t) == is_absolute(s));
        assert(ranges_before(s, start) == ranges(t));
        assert forall|k: int, i: int|
            0 <= k < ranges(s).len() && (#[trigger] ranges(s)[k]).0 <= i < ranges(s)[k].1 && (i > 0
                || !is_absolute(s)) implies #[trigger] s[i] != SLASH by {
            if k < ranges(t).len() {
                assert(ranges(t)[k] == ranges(s)[k]);
                assert(t[i] == s[i]);
            }
        }
        assert forall|k: int| 0 < k < ranges(s).len() implies s[(#[trigger] ranges(s)[k]).0 - 1]
            == SLASH by {
            if k < ranges(t).len() {
                assert(ranges(t)[k] == ranges(s)[k]);
                assert(ranges(t)[0].1 <= ranges(t)[k].0);
                assert(t[ranges(t)[k].0 - 1] == s[ranges(s)[k].0 - 1]);
            }
        }
        assert forall|k: int|
            0 <= k < ranges(s).len() implies 0 <= (#[trigger] ranges(s)[k]).0
            < ranges(s)[k].1 <= s.len() by {
            if k < ranges(t).len() {
                assert(ranges(t)[k] == ranges(s)[k]);
            }
        }
        assert forall|k: int, l: int|
            0 <= k < l < ranges(s).len() implies (#[trigger] ranges(s)[k]).1 <= (#[trigger] ranges(
            s,
        )[l]).0 by {
            if k < ranges(t).len() {
                assert(ranges(t)[k] == ranges(s)[k]);
            }
            if l < ranges(t).len() {
                assert(ranges(t)[l] == ranges(s)[l]);
            }
        }
        assert(ranges(t).len() > 0 ==> ranges(t)[0] == ranges(s)[0]);
        assert forall|k: int|
            0 <= k < ranges(s).len() && (#[trigger] ranges(s)[k]).0 == 0 && is_absolute(s) implies
            ranges(s)[k] == (0int, 1int) by {
            if k < ranges(t).len() {
                assert(ranges(t)[k] == ranges(s)[k]);
            }
        }
    } else if start == 1 {
        assert(ranges_before(s, start) =~= seq![(0int, 1int)]);
    } else {
        assert(ranges_before(s, start) =~= Seq::<(int, int)>::empty());
    }
}

/// The components of a path cut behind one of them are those up to it.
pub proof fn lemma_ranges_of_prefix(s: Seq<u8>, k: int)
    requires
        0 <= k < ranges(s).len(),
    ensures
        ranges(s.take(ranges(s)[k].1)) == ranges(s).take(k + 1),
    decreases s.len(),
{
    lemma_name_start(s);
    lemma_ranges(s);
    let start = name_start(s);
    let r = ranges(s);
    if counts(s, start) && k == r.len() - 1 {
        assert(s.take(s.len() as int) =~= s);
        assert(r.take(k + 1) =~= r);
    } else if start == 1 {
        let t = s.take(1);
        lemma_name_start_is(t, 1);
        assert(ranges(t) =~= seq![(0int, 1int)]);
        assert(r.take(k + 1) =~= seq![(0int, 1int)]);
    } else {
        let t = s.take(start - 1);
        lemma_ranges_of_prefix(t, k);
        lemma_ranges(t);
        assert(ranges(t)[k] == r[k]);
        assert(t.take(r[k].1) =~= s.take(r[k].1));
        assert(ranges(t).take(k + 1) =~= r.take(k + 1));
    }
}

/// The components of a path's parent are all of the path's but the last.
pub proof fn lemma_parent(s: Seq<u8>)
    requires
        parent(s) is Some,
    ensures
        ranges(parent(s)->0) == ranges(s).drop_last(),
        components(parent(s)->0) == components(s).drop_last(),
        parent(s)->0.len() < s.len(),
        is_absolute(parent(s)->0) == is_absolute(s),
{
    let r = ranges(s);
    let p = parent(s)->0;
    lemma_ranges(s);
    if r.len() == 1 {
        assert(ranges(p) =~= r.drop_last()) by {
            reveal_with_fuel(ranges, 2);
        }
    } else {
        lemma_ranges_of_prefix(s, r.len() - 2);
        assert(r.take(r.len() - 1) =~= r.drop_last());
        assert(r[r.len() - 2].1 <= r[r.len() - 1].0);
    }
    assert forall|k: int| 0 <= k < r.len() - 1 implies #[trigger] components(p)[k] == components(
        s,
    ).drop_last()[k] by {
        assert(ranges(p)[k] == r[k]);
        assert(p.subrange(r[k].0, r[k].1) =~= s.subrange(r[k].0, r[k].1));
    }
    assert(components(p) =~= components(s).drop_last());
}

/// The line of a path is that of its parent, and the path itself.
pub proof fn law_line_goes_through_the_parent(s: Seq<u8>)
    ensures
        match parent(s) {
            Some(p) => lineage(s) == lineage(p).push(s),
            None => lineage(s) == if ranges(s).len() == 0 {
                Seq::<Seq<u8>>::empty()
            } else {
                seq![s]
            },
        },
{
    lemma_ranges(s);
    let r = ranges(s);
    if let Some(p) = parent(s) {
        lemma_parent(s);
        assert forall|k: int| 0 <= k < r.len() implies #[trigger] lineage(s)[k] == lineage(p).push(
            s,
        )[k] by {
            if k < r.len() - 2 {
                assert(ranges(p)[k] == r[k]);
                assert(p.take(r[k].1) =~= s.take(r[k].1));
            }
        }
        assert(lineage(s) =~= lineage(p).push(s));
    } else if r.len() == 0 {
        assert(lineage(s) =~= Seq::<Seq<u8>>::empty());
    } else {
        assert(lineage(s) =~= seq![s]);
    }
}

/// The components of the line of a path are the beginnings of the path's own components.
pub proof fn lemma_lineage_components(s: Seq<u8>, k: int)
    requires
        0 <= k < lineage(s).len(),
    ensures
        components(lineage(s)[k]) == components(s).take(k + 1),
{
    let r = ranges(s);
    lemma_ranges(s);
    if k == r.len() - 1 {
        assert(components(s).take(k + 1) =~= components(s));
    } else {
        let t = s.take(r[k].1);
        lemma_ranges_of_prefix(s, k);
        assert forall|j: int| 0 <= j < k + 1 implies #[trigger] components(t)[j] == components(
            s,
        ).take(k + 1)[j] by {
            assert(ranges(t)[j] == r[j]);
            assert(r[j].1 <= r[k].1);
            assert(t.subrange(r[j].0, r[j].1) =~= s.subrange(r[j].0, r[j].1));
        }
        assert(components(t) =~= components(s).take(k + 1));
    }
}

/// Behind the first component of a path no component is a `.`.
pub proof fn law_only_the_first_component_is_a_dot(s: Seq<u8>, k: int)
    requires
        0 < k < components(s).len(),
    ensures
        components(s)[k] != seq![DOT],
    decreases s.len(),
{
    lemma_name_start(s);
    lemma_ranges(s);
    let start = name_start(s);
    let r = ranges(s);
    if counts(s, start) && k == r.len() - 1 {
        assert(r[k].0 >= r[0].1);
        assert(s.subrange(start, s.len() as int) =~= s.skip(start));
    } else {
        let t = s.take(start - 1);
        assert(start != 1);
        law_only_the_first_component_is_a_dot(t, k);
        lemma_ranges(t);
        assert(ranges(t)[k] == r[k]);
        assert(t.subrange(r[k].0, r[k].1) =~= s.subrange(r[k].0, r[k].1));
    }
}

/// The ranges as numbers of the machine.
pub open spec fn range_values(v: Seq<(usize, usize)>) -> Seq<(int, int)> {
    v.map_values(|r: (usize, usize)| (r.0 as int, r.1 as int))
}

/// Finds the components of a path.
fn find_ranges(s: &[u8]) -> (r: Vec<(usize, usize)>)
    ensures
        range_values(r@) == ranges(s@),
{
    let mut found: Vec<(usize, usize)> = Vec::new();
    let mut start: usize = 0;
    let mut i: usize = 0;
    assert(range_values(found@) =~= ranges_before(s@, 0));
    loop
        invariant_except_break
            start <= i <= s@.len(),
            start > 0 ==> s@[start - 1] == SLASH,
            forall|j: int| start <= j < i ==> s@[j] != SLASH,
            range_values(found@) == ranges_before(s@, start as int),
        ensures
            range_values(found@) == ranges(s@),
        decreases s@.len() - i,
    {
        if i == s.len() || s[i] == SLASH {
            let ghost t = s@.take(i as int);
            proof {
                assert forall|j: int| start <= j < t.len() implies t[j] != SLASH by {
                    assert(t[j] == s@[j]);
                }
                lemma_name_start_is(t, start as int);
                assert(ranges_before(t, start as int) == ranges_before(s@, start as int)) by {
                    if start > 1 {
                        assert(t.take(start - 1) =~= s@.take(start - 1));
                    }
                }
            }
            let ghost before = found@;
            if start < i && (i - start != 1 || s[start] != DOT || start == 0) {
                assert(counts(t, start as int)) by {
                    if t.skip(start as int) == seq![DOT] {
                        assert(t.skip(start as int).len() == 1);
                        assert(t.skip(start as int)[0] == t[start as int]);
                    }
                }
                found.push((start, i));
                assert(range_values(found@) =~= range_values(before).push((start as int, i as int)));
            } else {
                assert(!counts(t, start as int)) by {
                    if start < i {
                        assert(t.skip(start as int) =~= seq![DOT]);
                    }
                }
            }
            assert(range_values(found@) == ranges(t));
            if i == s.len() {
                assert(t =~= s@);
                break ;
            }
            if i == 0 {
                found.push((0, 1));
                assert(range_values(found@) =~= seq![(0int, 1int)]);
            }
            i = i + 1;
            start = i;
        } else {
            i = i + 1;
        }
    }
    found
}

/// A copy of bytes.
pub fn copied(s: &[u8]) -> (r: Vec<u8>)
    ensures
        r@ == s@,
{
    let mut r: Vec<u8> = Vec::new();
    r.extend_from_slice(s);
    assert(r@ =~= s@);
    r
}

/// The views of the components.
pub open spec fn names(v: Seq<Vec<u8>>) -> Seq<Seq<u8>> {
    v.map_values(|n: Vec<u8>| n@)
}

/// Takes a path apart.
pub fn split(s: &[u8]) -> (r: Vec<Vec<u8>>)
    ensures
        names(r@) == components(s@),
{
    let found = find_ranges(s);
    proof {
        lemma_ranges(s@);
    }
    let mut r: Vec<Vec<u8>> = Vec::new();
    let mut i: usize = 0;
    while i < found.len()
        invariant
            i <= found@.len(),
            range_values(found@) == ranges(s@),
            forall|k: int| 0 <= k < ranges(s@).len() ==> 0 <= (#[trigger] ranges(s@)[k]).0
                < ranges(s@)[k].1 <= s@.len(),
            names(r@) == components(s@).take(i as int),
        decreases found@.len() - i,
    {
        let range = found[i];
        assert(ranges(s@)[i as int] == (range.0 as int, range.1 as int));
        let ghost before = r@;
        r.push(copied(slice_subrange(s, range.0, range.1)));
        assert(names(r@) =~= names(before).push(s@.subrange(range.0 as int, range.1 as int)));
        assert(components(s@).take(i + 1) =~= components(s@).take(i as int).push(
            components(s@)[i as int],
        ));
        i = i + 1;
    }
    assert(components(s@).take(i as int) =~= components(s@));
    r
}

/// The directory that a path lies in.
pub fn parent_of(s: &[u8]) -> (r: Option<Vec<u8>>)
    ensures
        match r {
            Some(p) => parent(s@) == Some(p@),
            None => parent(s@) is None,
        },
{
    let found = find_ranges(s);
    proof {
        lemma_ranges(s@);
    }
    let n = found.len();
    assert(n == ranges(s@).len());
    if n == 0 || (n == 1 && s.len() > 0 && s[0] == SLASH) {
        None
    } else if n == 1 {
        let r: Vec<u8> = Vec::new();
        assert(r@ =~= seq![]);
        Some(r)
    } else {
        let end = found[n - 2].1;
        assert(ranges(s@)[n - 2].1 == end);
        let r = copied(slice_subrange(s, 0, end));
        assert(r@ =~= s@.take(end as int));
        Some(r)
    }
}

/// Puts one path below another.
pub fn join(a: &[u8], b: &[u8]) -> (r: Vec<u8>)
    ensures
        r@ == joined(a@, b@),
{
    if b.len() > 0 && b[0] == SLASH {
        return copied(b);
    }
    let mut r = copied(a);
    if a.len() > 0 && a[a.len() - 1] != SLASH {
        r.push(SLASH);
    }
    r.extend_from_slice(b);
    assert(r@ =~= joined(a@, b@));
    r
}

/// Puts names one below the other.
pub fn join_all(list: &[Vec<u8>]) -> (r: Vec<u8>)
    ensures
        r@ == joined_all(names(list@)),
{
    let mut r: Vec<u8> = Vec::new();
    let mut i: usize = 0;
    assert(names(list@).take(0) =~= seq![]);
    while i < list.len()
        invariant
            i <= list@.len(),
            r@ == joined_all(names(list@).take(i as int)),
        decreases list@.len() - i,
    {
        proof {
            let t = names(list@).take(i + 1);
            assert(t.drop_last() =~= names(list@).take(i as int));
            assert(t.last() == list@[i as int]@);
        }
        r = join(r.as_slice(), list[i].as_slice());
        i = i + 1;
    }
    assert(names(list@).take(i as int) =~= names(list@));
    r
}

/// Lists the directories above a path, and the path itself.
pub fn lineage_of(s: &[u8]) -> (r: Vec<Vec<u8>>)
    ensures
        names(r@) == lineage(s@),
{
    let found = find_ranges(s);
    proof {
        lemma_ranges(s@);
    }
    let mut r: Vec<Vec<u8>> = Vec::new();
    let mut i: usize = 0;
    while i < found.len()
        invariant
            i <= found@.len(),
            range_values(found@) == ranges(s@),
            forall|k: int| 0 <= k < ranges(s@).len() ==> 0 <= (#[trigger] ranges(s@)[k]).0
                < ranges(s@)[k].1 <= s@.len(),
            names(r@) == lineage(s@).take(i as int),
        decreases found@.len() - i,
    {
        let range = found[i];
        assert(ranges(s@)[i as int] == (range.0 as int, range.1 as int));
        let end = if i == found.len() - 1 {
            s.len()
        } else {
            range.1
        };
        let ghost before = r@;
        let dir = copied(slice_subrange(s, 0, end));
        assert(dir@ =~= lineage(s@)[i as int]);
        r.push(dir);
        assert(names(r@) =~= names(before).push(dir@));
        assert(lineage(s@).take(i + 1) =~= lineage(s@).take(i as int).push(lineage(s@)[i as int]));
        i = i + 1;
    }
    assert(lineage(s@).take(i as int) =~= lineage(s@));
    r
}

/// Whether the bytes are the name of something in a directory: there are some, none is a separator,
/// and they are not a single dot.
pub open spec fn is_name(name: Seq<u8>) -> bool {
    name.len() > 0 && !name.contains(SLASH) && name != seq![DOT]
}

/// Whether a path begins in the working directory without saying so: neither at the root nor with a
/// dot of its own.
pub open spec fn is_plain(s: Seq<u8>) -> bool {
    s.len() > 0 && s[0] != SLASH && !(s[0] == DOT && (s.len() == 1 || s[1] == SLASH))
}

/// How the components of a path are told apart: each stands behind a separator, or at the start,
/// where it may be a dot. Further separators, and dots between them, do not count. A separator at the
/// start is a component.
pub proof fn law_components_stand_between_separators(s: Seq<u8>, name: Seq<u8>)
    requires
        name.len() > 0,
        !name.contains(SLASH),
    ensures
        components(seq![]) == Seq::<Seq<u8>>::empty(),
        components(name) == seq![name],
        components(seq![SLASH]) == seq![seq![SLASH]],
        components(seq![SLASH] + name) == if name == seq![DOT] {
            seq![seq![SLASH]]
        } else {
            seq![seq![SLASH], name]
        },
        s.len() > 0 ==> components(s + seq![SLASH]) == components(s),
        s.len() > 0 ==> components(s + seq![SLASH] + name) == if name == seq![DOT] {
            components(s)
        } else {
            components(s).push(name)
        },
{
    lemma_components_end(seq![], name);
    lemma_components_end(s, name);
    let none = Seq::<u8>::empty();
    assert(ranges(none) =~= Seq::<(int, int)>::empty());
    assert(components(none) =~= Seq::<Seq<u8>>::empty());
    assert forall|i: int| 0 <= i < name.len() implies name[i] != SLASH by {
        assert(name.contains(name[i]));
    }
    lemma_name_start_is(name, 0);
    assert(ranges_before(name, 0) =~= Seq::<(int, int)>::empty());
    assert(ranges(name) =~= seq![(0int, name.len() as int)]);
    assert(name.subrange(0, name.len() as int) =~= name);
    assert(components(name) =~= seq![name]);
}

/// What stands behind a separator is one more component, unless it is nothing or a dot.
proof fn lemma_components_end(s: Seq<u8>, name: Seq<u8>)
    requires
        !name.contains(SLASH),
    ensures
        ({
            let before = if s.len() == 0 {
                seq![seq![SLASH]]
            } else {
                components(s)
            };
            &&& components(s + seq![SLASH]) == before
            &&& components(s + seq![SLASH] + name) == if name.len() == 0 || name == seq![DOT] {
                before
            } else {
                before.push(name)
            }
        }),
{
    let before = if s.len() == 0 {
        seq![seq![SLASH]]
    } else {
        components(s)
    };
    let short = s + seq![SLASH];
    let t = short + name;
    let n = s.len() + 1int;
    lemma_name_start_is(short, n);
    assert forall|i: int| n <= i < t.len() implies t[i] != SLASH by {
        assert(name.contains(name[i - n]));
    }
    lemma_name_start_is(t, n);
    assert(t.skip(n) =~= name);
    assert(short.take(n - 1) =~= s);
    assert(t.take(n - 1) =~= s);
    lemma_ranges(s);
    let r = if s.len() == 0 {
        seq![(0int, 1int)]
    } else {
        ranges(s)
    };
    assert(ranges_before(short, n) == r);
    assert(ranges_before(t, n) == r);
    assert(ranges(short) == r);
    assert forall|k: int| 0 <= k < r.len() implies #[trigger] before[k] == short.subrange(
        r[k].0,
        r[k].1,
    ) && before[k] == t.subrange(r[k].0, r[k].1) by {
        if s.len() == 0 {
            assert(short.subrange(0, 1) =~= seq![SLASH]);
            assert(t.subrange(0, 1) =~= seq![SLASH]);
        } else {
            assert(0 <= r[k].0 < r[k].1 <= s.len());
            assert(short.subrange(r[k].0, r[k].1) =~= s.subrange(r[k].0, r[k].1));
            assert(t.subrange(r[k].0, r[k].1) =~= s.subrange(r[k].0, r[k].1));
        }
    }
    assert(before.len() == r.len());
    assert(components(short) =~= before);
    if name.len() == 0 || name == seq![DOT] {
        assert(components(t) =~= before);
    } else {
        assert(t.subrange(n, t.len() as int) =~= name);
        assert(ranges(t) == r.push((n, t.len() as int)));
        assert(components(t) =~= before.push(name));
    }
}

/// A path below another has the components of both.
pub proof fn law_joined_paths_have_both_components(a: Seq<u8>, b: Seq<u8>)
    requires
        is_plain(b),
    ensures
        components(joined(a, b)) == components(a) + components(b),
        components(joined(a, seq![])) == components(a),
        components(joined(seq![], b)) == components(b),
{
    let none = Seq::<u8>::empty();
    assert(joined(none, b) =~= b);
    assert(ranges(none) =~= Seq::<(int, int)>::empty());
    assert(components(none) =~= Seq::<Seq<u8>>::empty());
    if a.len() == 0 {
        assert(a =~= none);
        assert(components(a) + components(b) =~= components(b));
        assert(joined(a, none) =~= none);
    } else if a.last() != SLASH {
        lemma_components_below(a, b);
        assert(joined(a, b) =~= a + seq![SLASH] + b);
        assert(joined(a, none) =~= a + seq![SLASH]);
        lemma_components_end(a, none);
    } else {
        let c = a.drop_last();
        assert(a =~= c + seq![SLASH]);
        lemma_components_end(c, none);
        assert(joined(a, none) =~= a);
        assert(joined(a, b) =~= c + seq![SLASH] + b);
        lemma_components_below(c, b);
    }
}

/// What stands below a directory, or below the root.
proof fn lemma_components_below(a: Seq<u8>, b: Seq<u8>)
    requires
        is_plain(b),
    ensures
        components(a + seq![SLASH] + b) == components(a + seq![SLASH]) + components(b),
    decreases b.len(),
{
    lemma_name_start(b);
    let start = name_start(b);
    let name = b.skip(start);
    let top = components(a + seq![SLASH]);
    assert(!name.contains(SLASH)) by {
        if name.contains(SLASH) {
            let i = choose|i: int| 0 <= i < name.len() && name[i] == SLASH;
            assert(b[start + i] == SLASH);
        }
    }
    if start == 0 {
        assert(name =~= b);
        lemma_components_end(a, b);
        assert(b != seq![DOT]);
        law_components_stand_between_separators(a, b);
        assert(top + seq![b] =~= top.push(b));
    } else {
        let rest = b.take(start - 1);
        assert(rest.len() > 0);
        assert(b =~= rest + seq![SLASH] + name);
        assert(is_plain(rest));
        lemma_components_below(a, rest);
        let whole = a + seq![SLASH] + rest;
        assert(a + seq![SLASH] + b =~= whole + seq![SLASH] + name);
        lemma_components_end(whole, name);
        lemma_components_end(rest, name);
        if name.len() > 0 && name != seq![DOT] {
            assert(top + components(rest).push(name) =~= (top + components(rest)).push(name));
        }
    }
}

/// Names with a separator between them.
pub open spec fn slashed(names: Seq<Seq<u8>>) -> Seq<u8>
    decreases names.len(),
{
    if names.len() == 0 {
        seq![]
    } else if names.len() == 1 {
        names[0]
    } else {
        slashed(names.drop_last()) + seq![SLASH] + names.last()
    }
}

/// Whether all of them are names.
pub open spec fn are_names(names: Seq<Seq<u8>>) -> bool {
    forall|i: int| 0 <= i < names.len() ==> is_name(#[trigger] names[i])
}

/// Names with separators between them are a path with just these components, and joined they are that
/// path.
pub proof fn law_names_read_back(names: Seq<Seq<u8>>)
    requires
        are_names(names),
    ensures
        components(slashed(names)) == names,
        joined_all(names) == slashed(names),
        names.len() > 0 ==> is_plain(slashed(names)) && slashed(names).last() != SLASH,
    decreases names.len(),
{
    if names.len() == 0 {
        assert(slashed(names) =~= seq![]);
        assert(ranges(seq![]) =~= Seq::<(int, int)>::empty());
        assert(components(seq![]) =~= names);
    } else {
        let init = names.drop_last();
        let name = names.last();
        assert(is_name(names[names.len() - 1]));
        assert(name.contains(name[0]));
        assert(name.contains(name[name.len() - 1]));
        assert forall|i: int| 0 <= i < init.len() implies is_name(#[trigger] init[i]) by {
            assert(init[i] == names[i]);
        }
        law_names_read_back(init);
        law_components_stand_between_separators(slashed(init), name);
        assert(init.push(name) =~= names);
        if names.len() == 1 {
            assert(names =~= seq![name]);
            assert(joined_all(init) =~= seq![]);
            assert(joined(joined_all(init), name) =~= name);
            if name[0] == DOT && name.len() == 1 {
                assert(name =~= seq![DOT]);
            }
            if name.len() > 1 {
                assert(name.contains(name[1]));
            }
        } else {
            let head = slashed(init);
            assert(head.len() > 0);
            assert(slashed(names) == head + seq![SLASH] + name);
            assert(joined(head, name) =~= head + seq![SLASH] + name);
            assert(slashed(names)[0] == head[0]);
            if head.len() > 1 {
                assert(slashed(names)[1] == head[1]);
            } else {
                assert(head[0] != DOT);
            }
        }
    }
}

/// The parent of names with separators between them are the names without the last, and the line
/// begins with the first name and goes on by one name at a time.
pub proof fn law_lines_go_name_by_name(names: Seq<Seq<u8>>)
    requires
        are_names(names),
    ensures
        names.len() > 0 ==> parent(slashed(names)) == Some(slashed(names.drop_last())),
        names.len() == 0 ==> parent(slashed(names)) is None,
        lineage(slashed(names)) == Seq::new(names.len(), |k: int| slashed(names.take(k + 1))),
    decreases names.len(),
{
    let s = slashed(names);
    law_names_read_back(names);
    assert(components(s).len() == ranges(s).len());
    let line = Seq::new(names.len(), |k: int| slashed(names.take(k + 1)));
    if names.len() == 0 {
        assert(lineage(s) =~= line);
    } else {
        let init = names.drop_last();
        assert forall|i: int| 0 <= i < init.len() implies is_name(#[trigger] init[i]) by {
            assert(init[i] == names[i]);
        }
        law_lines_go_name_by_name(init);
        law_names_read_back(init);
        let r = ranges(s);
        let head = slashed(init);
        if names.len() == 1 {
            assert(!is_absolute(s));
            assert(parent(s) == Some(head));
        } else {
            let name = names.last();
            lemma_name_start(s);
            assert(s == head + seq![SLASH] + name);
            let n = head.len() + 1int;
            assert(is_name(names[names.len() - 1]));
            assert forall|i: int| n <= i < s.len() implies s[i] != SLASH by {
                assert(s[i] == name[i - n]);
                assert(name.contains(name[i - n]));
            }
            lemma_name_start_is(s, n);
            assert(s.take(n - 1) =~= head);
            assert(s.skip(n) =~= name);
            assert(r == ranges(head).push((n, s.len() as int)));
            lemma_ends_whole(init);
            assert(r[r.len() - 2] == ranges(head).last());
            assert(parent(s) == Some(head));
        }
        law_line_goes_through_the_parent(s);
        assert forall|k: int| 0 <= k < names.len() implies #[trigger] lineage(s)[k] == line[k] by {
            if k < init.len() {
                assert(lineage(s)[k] == lineage(head)[k]);
                assert(init.take(k + 1) =~= names.take(k + 1));
            } else {
                assert(names.take(k + 1) =~= names);
            }
        }
        assert(lineage(s) =~= line);
    }
}

/// The last name goes to the end of the path.
proof fn lemma_ends_whole(names: Seq<Seq<u8>>)
    requires
        are_names(names),
        names.len() > 0,
    ensures
        ranges(slashed(names)).len() > 0,
        ranges(slashed(names)).last().1 == slashed(names).len(),
{
    let s = slashed(names);
    let name = names.last();
    let n = s.len() - name.len();
    assert(is_name(names[names.len() - 1]));
    assert forall|i: int| n <= i < s.len() implies s[i] != SLASH by {
        assert(s[i] == name[i - n]);
        assert(name.contains(name[i - n]));
    }
    lemma_name_start_is(s, n);
    assert(s.skip(n) =~= name);
}

/// All components but the first are names.
pub proof fn lemma_components_are_names(s: Seq<u8>)
    ensures
        forall|k: int| 0 < k < components(s).len() ==> is_name(#[trigger] components(s)[k]),
    decreases s.len(),
{
    lemma_name_start(s);
    lemma_ranges(s);
    let start = name_start(s);
    let r = ranges(s);
    assert forall|k: int| 0 < k < components(s).len() implies is_name(
        #[trigger] components(s)[k],
    ) by {
        let c = components(s)[k];
        assert(0 <= r[k].0 < r[k].1 <= s.len());
        assert(r[0].1 <= r[k].0);
        assert(!c.contains(SLASH)) by {
            if c.contains(SLASH) {
                let i = choose|i: int| 0 <= i < c.len() && c[i] == SLASH;
                assert(s[r[k].0 + i] == SLASH);
            }
        }
        if start > 1 {
            let t = s.take(start - 1);
            lemma_components_are_names(t);
            if k < ranges(t).len() {
                lemma_ranges(t);
                assert(ranges(t)[k] == r[k]);
                assert(t.subrange(r[k].0, r[k].1) =~= c);
                assert(is_name(components(t)[k]));
            } else {
                assert(c =~= s.skip(start));
            }
        } else if start == 1 {
            assert(c =~= s.skip(start));
        }
    }
}

} // verus!
