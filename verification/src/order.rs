//! Lexicographic order on texts and on groups of texts, and insertion into
//! sorted lists.

use vstd::prelude::*;
use vstd::relations::*;
use vstd::seq_lib::*;

verus! {

/// Characters are ordered by their code points.
pub open spec fn char_le(a: char, b: char) -> bool {
    a <= b
}

/// The order of characters, as a relation.
pub open spec fn char_order() -> spec_fn(char, char) -> bool {
    |a: char, b: char| char_le(a, b)
}

/// Lexicographic order: the first position at which two sequences differ
/// decides, and a proper prefix comes before what it is a prefix of.
pub open spec fn lex_le<T>(a: Seq<T>, b: Seq<T>, le: spec_fn(T, T) -> bool) -> bool
    decreases a.len(),
{
    if a.len() == 0 {
        true
    } else if b.len() == 0 {
        false
    } else if a[0] == b[0] {
        lex_le(a.drop_first(), b.drop_first(), le)
    } else {
        le(a[0], b[0])
    }
}

/// Texts in lexicographic order by code point, which is the order of their
/// UTF-8 encodings.
pub open spec fn text_le(a: Seq<char>, b: Seq<char>) -> bool {
    lex_le(a, b, char_order())
}

/// The order of texts, as a relation.
pub open spec fn text_order() -> spec_fn(Seq<char>, Seq<char>) -> bool {
    |a: Seq<char>, b: Seq<char>| text_le(a, b)
}

/// A file group: the texts that describe one model.
pub type Group = Seq<Seq<char>>;

/// Groups in lexicographic order: by their first texts, then by their
/// second, and so on.
pub open spec fn group_le(a: Group, b: Group) -> bool {
    lex_le(a, b, text_order())
}

/// The order of groups, as a relation.
pub open spec fn group_order() -> spec_fn(Group, Group) -> bool {
    |a: Group, b: Group| group_le(a, b)
}

/// Every sequence is at most itself.
pub proof fn lemma_lex_reflexive<T>(a: Seq<T>, le: spec_fn(T, T) -> bool)
    ensures
        lex_le(a, a, le),
    decreases a.len(),
{
    if a.len() > 0 {
        lemma_lex_reflexive(a.drop_first(), le);
    }
}

/// Two sequences of which each is at most the other are the same, where
/// that holds of their elements.
pub proof fn lemma_lex_antisymmetric<T>(a: Seq<T>, b: Seq<T>, le: spec_fn(T, T) -> bool)
    requires
        antisymmetric(le),
        lex_le(a, b, le),
        lex_le(b, a, le),
    ensures
        a == b,
    decreases a.len(),
{
    if a.len() == 0 {
        assert(a =~= b);
    } else {
        if a[0] == b[0] {
            lemma_lex_antisymmetric(a.drop_first(), b.drop_first(), le);
            assert(a =~= seq![a[0]] + a.drop_first());
            assert(b =~= seq![b[0]] + b.drop_first());
        } else {
            assert(le(a[0], b[0]) && le(b[0], a[0]));
        }
    }
}

/// The lexicographic order passes through a sequence in the middle, where
/// the order of the elements does.
pub proof fn lemma_lex_transitive<T>(a: Seq<T>, b: Seq<T>, c: Seq<T>, le: spec_fn(T, T) -> bool)
    requires
        antisymmetric(le),
        transitive(le),
        lex_le(a, b, le),
        lex_le(b, c, le),
    ensures
        lex_le(a, c, le),
    decreases a.len(),
{
    if a.len() > 0 {
        if a[0] == b[0] && b[0] == c[0] {
            lemma_lex_transitive(a.drop_first(), b.drop_first(), c.drop_first(), le);
        } else if a[0] != b[0] && b[0] != c[0] {
            assert(le(a[0], b[0]) && le(b[0], c[0]));
            assert(le(a[0], c[0]));
            if a[0] == c[0] {
                assert(le(b[0], a[0]));
            }
        }
    }
}

/// Of two sequences one is at most the other, where that holds of their
/// elements.
pub proof fn lemma_lex_connected<T>(a: Seq<T>, b: Seq<T>, le: spec_fn(T, T) -> bool)
    requires
        strongly_connected(le),
    ensures
        lex_le(a, b, le) || lex_le(b, a, le),
    decreases a.len(),
{
    if a.len() > 0 && b.len() > 0 {
        if a[0] == b[0] {
            lemma_lex_connected(a.drop_first(), b.drop_first(), le);
        } else {
            assert(le(a[0], b[0]) || le(b[0], a[0]));
        }
    }
}

/// The order of characters is total.
pub proof fn lemma_char_order_total()
    ensures
        total_ordering(char_order()),
{
    let le = char_order();
    assert(reflexive(le));
    assert(antisymmetric(le)) by {
        assert forall|a: char, b: char| #[trigger] le(a, b) && #[trigger] le(b, a) implies a
            == b by {
        }
    }
    assert(transitive(le));
    assert(strongly_connected(le));
}

/// The order of texts is total.
pub proof fn lemma_text_order_total()
    ensures
        total_ordering(text_order()),
{
    lemma_char_order_total();
    let le = text_order();
    assert forall|a: Seq<char>| #[trigger] le(a, a) by {
        lemma_lex_reflexive(a, char_order());
    }
    assert forall|a: Seq<char>, b: Seq<char>| #[trigger] le(a, b) && #[trigger] le(b, a) implies a
        == b by {
        lemma_lex_antisymmetric(a, b, char_order());
    }
    assert forall|a: Seq<char>, b: Seq<char>, c: Seq<char>| #[trigger]
        le(a, b) && #[trigger] le(b, c) implies le(a, c) by {
        lemma_lex_transitive(a, b, c, char_order());
    }
    assert forall|a: Seq<char>, b: Seq<char>| #[trigger] le(a, b) || #[trigger] le(b, a) by {
        lemma_lex_connected(a, b, char_order());
    }
}

/// The order of groups is total.
pub proof fn lemma_group_order_total()
    ensures
        total_ordering(group_order()),
{
    lemma_text_order_total();
    let le = group_order();
    assert forall|a: Group| #[trigger] le(a, a) by {
        lemma_lex_reflexive(a, text_order());
    }
    assert forall|a: Group, b: Group| #[trigger] le(a, b) && #[trigger] le(
        b,
        a,
    ) implies a == b by {
        lemma_lex_antisymmetric(a, b, text_order());
    }
    assert forall|a: Group, b: Group, c: Group| #[trigger]
        le(a, b) && #[trigger] le(b, c) implies le(a, c) by {
        lemma_lex_transitive(a, b, c, text_order());
    }
    assert forall|a: Group, b: Group| #[trigger] le(a, b) || #[trigger] le(
        b,
        a,
    ) by {
        lemma_lex_connected(a, b, text_order());
    }
}

/// Leading equal parts do not change how two sequences compare.
pub proof fn lemma_lex_skip<T>(a: Seq<T>, b: Seq<T>, le: spec_fn(T, T) -> bool, n: int)
    requires
        0 <= n <= a.len(),
        n <= b.len(),
        a.take(n) == b.take(n),
    ensures
        lex_le(a, b, le) == lex_le(a.skip(n), b.skip(n), le),
    decreases n,
{
    if n == 0 {
        assert(a.skip(0) =~= a);
        assert(b.skip(0) =~= b);
    } else {
        assert(a[0] == a.take(n)[0]);
        assert(b[0] == b.take(n)[0]);
        assert(a.drop_first().take(n - 1) =~= a.take(n).drop_first());
        assert(b.drop_first().take(n - 1) =~= b.take(n).drop_first());
        lemma_lex_skip(a.drop_first(), b.drop_first(), le, n - 1);
        assert(a.drop_first().skip(n - 1) =~= a.skip(n));
        assert(b.drop_first().skip(n - 1) =~= b.skip(n));
    }
}

/// Whether two texts are the same.
pub fn same_text(a: &Vec<char>, b: &Vec<char>) -> (same: bool)
    ensures
        same == (a@ == b@),
{
    if a.len() != b.len() {
        return false;
    }
    let mut i: usize = 0;
    while i < a.len()
        invariant
            a.len() == b.len(),
            i <= a.len(),
            a@.take(i as int) == b@.take(i as int),
        decreases a.len() - i,
    {
        if a[i] != b[i] {
            return false;
        }
        assert(a@.take(i + 1) =~= a@.take(i as int).push(a@[i as int]));
        assert(b@.take(i + 1) =~= b@.take(i as int).push(b@[i as int]));
        i += 1;
    }
    assert(a@ =~= a@.take(i as int));
    assert(b@ =~= b@.take(i as int));
    true
}

/// Whether text `a` comes before text `b` or equals it.
pub fn text_less_eq(a: &Vec<char>, b: &Vec<char>) -> (le: bool)
    ensures
        le == text_le(a@, b@),
{
    let mut i: usize = 0;
    while i < a.len() && i < b.len()
        invariant
            i <= a.len(),
            i <= b.len(),
            a@.take(i as int) == b@.take(i as int),
        decreases a.len() - i,
    {
        if a[i] != b[i] {
            proof {
                lemma_lex_skip(a@, b@, char_order(), i as int);
            }
            return a[i] < b[i];
        }
        assert(a@.take(i + 1) =~= a@.take(i as int).push(a@[i as int]));
        assert(b@.take(i + 1) =~= b@.take(i as int).push(b@[i as int]));
        i += 1;
    }
    proof {
        lemma_lex_skip(a@, b@, char_order(), i as int);
    }
    i == a.len()
}

/// The texts that a list of character vectors holds.
pub open spec fn texts_view(texts: Seq<Vec<char>>) -> Seq<Seq<char>> {
    texts.map_values(|t: Vec<char>| t@)
}

/// The groups that a list of lists of character vectors holds.
pub open spec fn groups_view(groups: Seq<Vec<Vec<char>>>) -> Seq<Group> {
    groups.map_values(|g: Vec<Vec<char>>| texts_view(g@))
}

/// Whether group `a` comes before group `b` or equals it.
pub fn group_less_eq(a: &Vec<Vec<char>>, b: &Vec<Vec<char>>) -> (le: bool)
    ensures
        le == group_le(texts_view(a@), texts_view(b@)),
{
    let ghost av = texts_view(a@);
    let ghost bv = texts_view(b@);
    let mut i: usize = 0;
    while i < a.len() && i < b.len()
        invariant
            av == texts_view(a@),
            bv == texts_view(b@),
            i <= a.len(),
            i <= b.len(),
            av.take(i as int) == bv.take(i as int),
        decreases a.len() - i,
    {
        if !same_text(&a[i], &b[i]) {
            proof {
                lemma_lex_skip(av, bv, text_order(), i as int);
            }
            return text_less_eq(&a[i], &b[i]);
        }
        assert(av.take(i + 1) =~= av.take(i as int).push(av[i as int]));
        assert(bv.take(i + 1) =~= bv.take(i as int).push(bv[i as int]));
        i += 1;
    }
    proof {
        lemma_lex_skip(av, bv, text_order(), i as int);
    }
    i == a.len()
}

/// Where a new element goes in a sorted sequence: after everything that is
/// not greater than it.
proof fn lemma_insert_keeps_sorted<T>(
    sorted: Seq<T>,
    item: T,
    at: int,
    le: spec_fn(T, T) -> bool,
)
    requires
        total_ordering(le),
        sorted_by(sorted, le),
        0 <= at <= sorted.len(),
        forall|k: int| 0 <= k < at ==> le(#[trigger] sorted[k], item),
        at < sorted.len() ==> !le(sorted[at], item),
    ensures
        sorted_by(sorted.insert(at, item), le),
        sorted.insert(at, item).to_multiset() == sorted.to_multiset().insert(item),
{
    let after = sorted.insert(at, item);
    to_multiset_insert(sorted, at, item);
    assert forall|i: int, j: int| 0 <= i < j < after.len() implies #[trigger] le(
        after[i],
        after[j],
    ) by {
        if j < at {
            assert(le(sorted[i], sorted[j]));
        } else if j == at {
            assert(le(sorted[i], item));
        } else if i == at {
            assert(le(item, sorted[at]));
            if j - 1 > at {
                assert(le(sorted[at], sorted[j - 1]));
            }
            assert(le(item, sorted[j - 1]));
        } else if i < at {
            assert(le(sorted[i], sorted[j - 1]));
        } else {
            assert(le(sorted[i - 1], sorted[j - 1]));
        }
    }
}

/// Puts `item` into a sorted list of texts, behind the texts that are not
/// greater than it.
pub fn insert_text(sorted: &mut Vec<Vec<char>>, item: Vec<char>)
    requires
        sorted_by(texts_view(old(sorted)@), text_order()),
    ensures
        sorted_by(texts_view(final(sorted)@), text_order()),
        texts_view(final(sorted)@).to_multiset() == texts_view(old(sorted)@).to_multiset().insert(
            item@,
        ),
{
    let ghost before = texts_view(sorted@);
    let mut at: usize = 0;
    while at < sorted.len()
        invariant
            before == texts_view(sorted@),
            at <= sorted.len(),
            forall|k: int| 0 <= k < at ==> text_order()(#[trigger] before[k], item@),
        ensures
            at <= sorted.len(),
            forall|k: int| 0 <= k < at ==> text_order()(#[trigger] before[k], item@),
            at < sorted.len() ==> !text_order()(before[at as int], item@),
        decreases sorted.len() - at,
    {
        if !text_less_eq(&sorted[at], &item) {
            break ;
        }
        at += 1;
    }
    let ghost item_view = item@;
    sorted.insert(at, item);
    proof {
        lemma_text_order_total();
        lemma_insert_keeps_sorted(before, item_view, at as int, text_order());
        assert(texts_view(sorted@) =~= before.insert(at as int, item_view));
    }
}

/// Puts `item` into a sorted list of groups, behind the groups that are not
/// greater than it.
pub fn insert_group(sorted: &mut Vec<Vec<Vec<char>>>, item: Vec<Vec<char>>)
    requires
        sorted_by(groups_view(old(sorted)@), group_order()),
    ensures
        sorted_by(groups_view(final(sorted)@), group_order()),
        groups_view(final(sorted)@).to_multiset() == groups_view(
            old(sorted)@,
        ).to_multiset().insert(texts_view(item@)),
{
    let ghost before = groups_view(sorted@);
    let mut at: usize = 0;
    while at < sorted.len()
        invariant
            before == groups_view(sorted@),
            at <= sorted.len(),
            forall|k: int| 0 <= k < at ==> group_order()(#[trigger] before[k], texts_view(item@)),
        ensures
            at <= sorted.len(),
            forall|k: int| 0 <= k < at ==> group_order()(#[trigger] before[k], texts_view(item@)),
            at < sorted.len() ==> !group_order()(before[at as int], texts_view(item@)),
        decreases sorted.len() - at,
    {
        if !group_less_eq(&sorted[at], &item) {
            break ;
        }
        at += 1;
    }
    let ghost item_view = texts_view(item@);
    sorted.insert(at, item);
    proof {
        lemma_group_order_total();
        lemma_insert_keeps_sorted(before, item_view, at as int, group_order());
        assert(groups_view(sorted@) =~= before.insert(at as int, item_view));
    }
}

} // verus!
