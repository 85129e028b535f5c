//! A grammar: the table of node kinds, and the classification of token text.

use crate::spec::{NodeSpec, TokenSpec};
use itertools::Itertools;
use vstd::prelude::*;

verus! {

/// The id under which the parser reports a node that it could not classify.
pub const ERROR_KIND: u16 = 65535;

/// What classifying a piece of text gives.
#[derive(Clone, Copy, Debug, PartialEq, Eq, Structural)]
pub enum Classification {
    /// The one category that the text belongs to.
    Category(u16),
    /// Several pattern categories of the winning precedence accept the text.
    Ambiguous,
    /// No category accepts the text.
    Unmatched,
}

/// The part a child plays in a bracketed tree.
#[derive(Clone, Copy, Debug, PartialEq, Eq, Structural)]
pub enum Role {
    Start,
    Sep,
    End,
    Plain,
}

/// Why a table of node kinds is no grammar.
#[derive(Clone, Copy, Debug, PartialEq, Eq, Structural)]
pub enum GrammarError {
    /// The table is longer than the ids that a node can carry.
    TooManyNodes,
    /// No token category of the table is the lexing-error fallback.
    NoLexError,
}

/// Whether kind `n` of the table is a constant token category.
pub open spec fn constant_at(kinds: Seq<NodeSpec>, n: int) -> bool {
    0 <= n < kinds.len() && kinds[n] matches NodeSpec::Token(TokenSpec::Constant { .. })
}

/// Whether kind `n` of the table is a pattern token category.
pub open spec fn pattern_at(kinds: Seq<NodeSpec>, n: int) -> bool {
    0 <= n < kinds.len() && kinds[n] matches NodeSpec::Token(TokenSpec::Regex { .. })
}

/// The precedence of the pattern category `n`.
pub open spec fn precedence_at(kinds: Seq<NodeSpec>, n: int) -> int {
    match kinds[n] {
        NodeSpec::Token(TokenSpec::Regex { precedence, .. }) => precedence as int,
        _ => 0,
    }
}

/// Whether kind `n` of the table is the lexing-error fallback category.
pub open spec fn lex_error_at(kinds: Seq<NodeSpec>, n: int) -> bool {
    &&& 0 <= n < kinds.len()
    &&& kinds[n] matches NodeSpec::Token(t)
    &&& t.lex_error()
}

/// Whether `accepted` marks kind `n`. A kind beyond the end is not marked.
pub open spec fn marked(accepted: Seq<bool>, n: int) -> bool {
    0 <= n < accepted.len() && accepted[n]
}

/// Member `i` of group `g`.
pub open spec fn member(groups: Seq<(i32, Vec<u16>)>, g: int, i: int) -> int {
    groups[g].1@[i] as int
}

/// The precedence of group `g`.
pub open spec fn level(groups: Seq<(i32, Vec<u16>)>, g: int) -> int {
    groups[g].0 as int
}

/// Whether `n` is a member of one of the groups.
pub open spec fn in_groups(groups: Seq<(i32, Vec<u16>)>, n: int) -> bool {
    exists|g: int, i: int|
        0 <= g < groups.len() && 0 <= i < groups[g].1@.len() && #[trigger] member(groups, g, i)
            == n
}

/// The groups hold the pattern categories below `k`, each in the group of its
/// precedence: groups in ascending precedence, members in ascending order.
pub open spec fn grouped(kinds: Seq<NodeSpec>, groups: Seq<(i32, Vec<u16>)>, k: int) -> bool {
    &&& forall|g: int, h: int|
        0 <= g < h < groups.len() ==> #[trigger] level(groups, g) < #[trigger] level(groups, h)
    &&& forall|g: int, i: int, j: int|
        0 <= g < groups.len() && 0 <= i < j < groups[g].1@.len() ==> #[trigger] member(
            groups,
            g,
            i,
        ) < #[trigger] member(groups, g, j)
    &&& forall|g: int, i: int|
        0 <= g < groups.len() && 0 <= i < groups[g].1@.len() ==> {
            &&& #[trigger] member(groups, g, i) < k
            &&& pattern_at(kinds, member(groups, g, i))
            &&& precedence_at(kinds, member(groups, g, i)) == level(groups, g)
        }
    &&& forall|n: int| 0 <= n < k && #[trigger] pattern_at(kinds, n) ==> in_groups(groups, n)
}

/// The list holds the constant categories below `k`, in ascending order.
pub open spec fn listed(kinds: Seq<NodeSpec>, constants: Seq<u16>, k: int) -> bool {
    &&& forall|i: int, j: int|
        0 <= i < j < constants.len() ==> (#[trigger] constants[i]) < (#[trigger] constants[j])
    &&& forall|i: int|
        0 <= i < constants.len() ==> (#[trigger] constants[i]) < k && constant_at(
            kinds,
            constants[i] as int,
        )
    &&& forall|n: int|
        0 <= n < k && #[trigger] constant_at(kinds, n) ==> exists|i: int|
            0 <= i < constants.len() && #[trigger] constants[i] == n
}

/// The outcome `o` is the right one for the text whose acceptance by each
/// kind of the table is `accepted`.
///
/// The first constant category that accepts wins. With none, the pattern
/// category of the lowest precedence among those that accept wins, if it is
/// alone at that precedence; if it is not, the text is ambiguous.
pub open spec fn outcome(kinds: Seq<NodeSpec>, accepted: Seq<bool>, o: Classification) -> bool {
    match o {
        Classification::Category(n) => {
            ||| {
                &&& constant_at(kinds, n as int)
                &&& marked(accepted, n as int)
                &&& forall|c: int|
                    0 <= c < n && #[trigger] constant_at(kinds, c) ==> !marked(accepted, c)
            }
            ||| {
                &&& forall|c: int| #[trigger] constant_at(kinds, c) ==> !marked(accepted, c)
                &&& pattern_at(kinds, n as int)
                &&& marked(accepted, n as int)
                &&& forall|m: int|
                    #[trigger] pattern_at(kinds, m) && marked(accepted, m) && m != n
                        ==> precedence_at(kinds, m) > precedence_at(kinds, n as int)
            }
        },
        Classification::Ambiguous => {
            &&& forall|c: int| #[trigger] constant_at(kinds, c) ==> !marked(accepted, c)
            &&& exists|a: int, b: int|
                {
                    &&& a != b
                    &&& #[trigger] pattern_at(kinds, a)
                    &&& #[trigger] pattern_at(kinds, b)
                    &&& marked(accepted, a)
                    &&& marked(accepted, b)
                    &&& precedence_at(kinds, a) == precedence_at(kinds, b)
                    &&& forall|m: int|
                        #[trigger] pattern_at(kinds, m) && marked(accepted, m) ==> precedence_at(
                            kinds,
                            m,
                        ) >= precedence_at(kinds, a)
                }
        },
        Classification::Unmatched => {
            &&& forall|c: int| #[trigger] constant_at(kinds, c) ==> !marked(accepted, c)
            &&& forall|m: int| #[trigger] pattern_at(kinds, m) ==> !marked(accepted, m)
        },
    }
}

/// Whether the kind is a token category that accepts `text`.
pub open spec fn token_accepts(kind: NodeSpec, text: Seq<char>) -> bool {
    kind matches NodeSpec::Token(t) && t.accepts(text)
}

/// For each kind of the table, whether it is a token category that accepts
/// `text`.
pub open spec fn acceptance(kinds: Seq<NodeSpec>, text: Seq<char>) -> Seq<bool> {
    Seq::new(kinds.len(), |n: int| token_accepts(kinds[n], text))
}

/// The role that a child of kind `child` plays under a parent of kind `parent`.
pub open spec fn role_of(kinds: Seq<NodeSpec>, parent: int, child: u16) -> Role {
    if 0 <= parent < kinds.len() {
        match kinds[parent] {
            NodeSpec::Tree { start, sep, end } => {
                if start@.contains(child) {
                    Role::Start
                } else if end@.contains(child) {
                    Role::End
                } else if sep@.contains(child) {
                    Role::Sep
                } else {
                    Role::Plain
                }
            },
            _ => Role::Plain,
        }
    } else {
        Role::Plain
    }
}

/// Classification has one outcome: two outcomes that are both right for the
/// same acceptance are the same outcome.
pub proof fn outcome_is_unique(
    kinds: Seq<NodeSpec>,
    accepted: Seq<bool>,
    a: Classification,
    b: Classification,
)
    requires
        outcome(kinds, accepted, a),
        outcome(kinds, accepted, b),
    ensures
        a == b,
{
    match (a, b) {
        (Classification::Category(n), Classification::Category(m)) => {
            if n != m {
                if constant_at(kinds, n as int) {
                    assert(constant_at(kinds, m as int));
                } else {
                    assert(pattern_at(kinds, n as int) && pattern_at(kinds, m as int));
                }
            }
        },
        (Classification::Category(n), Classification::Ambiguous) => {
            lemma_two_winners(kinds, accepted, n as int);
        },
        (Classification::Ambiguous, Classification::Category(n)) => {
            lemma_two_winners(kinds, accepted, n as int);
        },
        (Classification::Category(n), Classification::Unmatched) => {
            assert(constant_at(kinds, n as int) || pattern_at(kinds, n as int));
        },
        (Classification::Unmatched, Classification::Category(n)) => {
            assert(constant_at(kinds, n as int) || pattern_at(kinds, n as int));
        },
        _ => {},
    }
}

/// The pattern category `n` does not win where two others share the lowest
/// precedence.
proof fn lemma_two_winners(kinds: Seq<NodeSpec>, accepted: Seq<bool>, n: int)
    requires
        0 <= n <= u16::MAX,
        outcome(kinds, accepted, Classification::Ambiguous),
    ensures
        !outcome(kinds, accepted, Classification::Category(n as u16)),
{
    let (a, b) = choose|a: int, b: int|
        {
            &&& a != b
            &&& #[trigger] pattern_at(kinds, a)
            &&& #[trigger] pattern_at(kinds, b)
            &&& marked(accepted, a)
            &&& marked(accepted, b)
            &&& precedence_at(kinds, a) == precedence_at(kinds, b)
            &&& forall|m: int|
                #[trigger] pattern_at(kinds, m) && marked(accepted, m) ==> precedence_at(kinds, m)
                    >= precedence_at(kinds, a)
        };
    if outcome(kinds, accepted, Classification::Category(n as u16)) {
        assert(!constant_at(kinds, n));
        assert(pattern_at(kinds, n));
        if a != n {
            assert(precedence_at(kinds, a) > precedence_at(kinds, n));
        } else {
            assert(precedence_at(kinds, b) > precedence_at(kinds, n));
        }
    }
}

/// Text that some pattern category accepts is never unmatched: with a
/// catch-all category in the grammar, classification always gives a category
/// or the ambiguous outcome.
pub proof fn accepted_text_is_matched(kinds: Seq<NodeSpec>, text: Seq<char>, n: int)
    requires
        pattern_at(kinds, n),
        token_accepts(kinds[n], text),
    ensures
        !outcome(kinds, acceptance(kinds, text), Classification::Unmatched),
{
    assert(marked(acceptance(kinds, text), n));
}

/// Whether `list` holds `kind`.
pub fn holds_kind(list: &Vec<u16>, kind: u16) -> (b: bool)
    ensures
        b == list@.contains(kind),
{
    let mut i: usize = 0;
    while i < list.len()
        invariant
            i <= list.len(),
            forall|j: int| 0 <= j < i ==> list@[j] != kind,
        decreases list.len() - i,
    {
        if list[i] == kind {
            return true;
        }
        i += 1;
    }
    false
}

/// Whether the pair `a` stands in front of the pair `b`: by its precedence,
/// and by its id where the two have the same precedence.
pub open spec fn ahead(a: (i32, u16), b: (i32, u16)) -> bool {
    a.0 < b.0 || (a.0 == b.0 && a.1 < b.1)
}

/// Whether the pair holds a pattern category below `k` and its precedence.
pub open spec fn pairs_up(kinds: Seq<NodeSpec>, pair: (i32, u16), k: int) -> bool {
    &&& pair.1 < k
    &&& pattern_at(kinds, pair.1 as int)
    &&& precedence_at(kinds, pair.1 as int) == pair.0
}

/// Whether each pair stands in front of those behind it.
pub open spec fn in_order(pairs: Seq<(i32, u16)>) -> bool {
    forall|i: int, j: int|
        0 <= i < j < pairs.len() ==> ahead(#[trigger] pairs[i], #[trigger] pairs[j])
}

/// The pairs hold the pattern categories below `k`, each with its
/// precedence, in order.
pub open spec fn paired(kinds: Seq<NodeSpec>, pairs: Seq<(i32, u16)>, k: int) -> bool {
    &&& in_order(pairs)
    &&& forall|i: int| 0 <= i < pairs.len() ==> pairs_up(kinds, #[trigger] pairs[i], k)
    &&& forall|n: int|
        0 <= n < k && #[trigger] pattern_at(kinds, n) ==> exists|i: int|
            0 <= i < pairs.len() && (#[trigger] pairs[i]).1 == n
}

/// The runs of pairs with the same first part, in order: each run as that
/// first part and the second parts of its pairs.
pub open spec fn runs(pairs: Seq<(i32, u16)>) -> Seq<(i32, Seq<u16>)>
    decreases pairs.len(),
{
    if pairs.len() == 0 {
        Seq::empty()
    } else {
        let front = runs(pairs.drop_last());
        let last = pairs.last();
        if front.len() > 0 && front.last().0 == last.0 {
            front.drop_last().push((last.0, front.last().1.push(last.1)))
        } else {
            front.push((last.0, seq![last.1]))
        }
    }
}

/// The groups as values.
pub open spec fn group_views(groups: Seq<(i32, Vec<u16>)>) -> Seq<(i32, Seq<u16>)> {
    Seq::new(groups.len(), |g: int| (groups[g].0, groups[g].1@))
}

/// Calls `itertools::Itertools::group_by` on the pairs, with the first part
/// of a pair as its key, and collects each group's key with the second parts
/// of its pairs. Trusted: the groups are the runs of pairs with the same
/// first part, in the order of the pairs.
#[verifier::external_body]
fn group_runs(pairs: Vec<(i32, u16)>) -> (groups: Vec<(i32, Vec<u16>)>)
    ensures
        group_views(groups@) == runs(pairs@),
{
    let mut groups: Vec<(i32, Vec<u16>)> = Vec::new();
    for (key, group) in &pairs.into_iter().group_by(|pair| pair.0) {
        groups.push((key, group.map(|pair| pair.1).collect()));
    }
    groups
}

/// Whether one of the runs holds the pair.
pub open spec fn run_has(r: Seq<(i32, Seq<u16>)>, pair: (i32, u16)) -> bool {
    exists|g: int, i: int|
        0 <= g < r.len() && 0 <= i < r[g].1.len() && r[g].0 == pair.0 && #[trigger] r[g].1[i]
            == pair.1
}

/// The runs `r` of pairs in order: runs in ascending order of their first
/// part, each with its second parts in ascending order, and holding the
/// pairs and nothing else.
pub open spec fn runs_fit(pairs: Seq<(i32, u16)>, r: Seq<(i32, Seq<u16>)>) -> bool {
    &&& forall|g: int, h: int| 0 <= g < h < r.len() ==> (#[trigger] r[g]).0 < (#[trigger] r[h]).0
    &&& forall|g: int, i: int, j: int|
        0 <= g < r.len() && 0 <= i < j < r[g].1.len() ==> (#[trigger] r[g].1[i])
            < (#[trigger] r[g].1[j])
    &&& forall|g: int, i: int|
        0 <= g < r.len() && 0 <= i < r[g].1.len() ==> pairs.contains((r[g].0, #[trigger] r[g].1[i]))
    &&& forall|x: int| 0 <= x < pairs.len() ==> run_has(r, #[trigger] pairs[x])
    &&& forall|g: int| 0 <= g < r.len() ==> (#[trigger] r[g]).1.len() >= 1
    &&& pairs.len() > 0 ==> r.len() > 0 && r.last().0 == pairs.last().0 && r.last().1.last()
        == pairs.last().1
}

/// The runs of pairs in order fit them.
pub proof fn lemma_runs_fit(pairs: Seq<(i32, u16)>)
    requires
        in_order(pairs),
    ensures
        runs_fit(pairs, runs(pairs)),
    decreases pairs.len(),
{
    if pairs.len() > 0 {
        let q = pairs.drop_last();
        let last = pairs.last();
        let front = runs(q);
        let r = runs(pairs);
        assert forall|i: int, j: int| 0 <= i < j < q.len() implies ahead(
            #[trigger] q[i],
            #[trigger] q[j],
        ) by {
            assert(ahead(pairs[i], pairs[j]));
        }
        lemma_runs_fit(q);
        assert forall|x: int| 0 <= x < q.len() implies ahead(#[trigger] q[x], last) by {
            assert(ahead(pairs[x], pairs[pairs.len() - 1]));
        }
        if front.len() > 0 && front.last().0 == last.0 {
            let top = front.len() - 1;
            let members = front.last().1.push(last.1);
            assert(r[top] == (last.0, members));
            assert forall|g: int| 0 <= g < top implies r[g] == front[g] by {}
            assert forall|g: int, h: int| 0 <= g < h < r.len() implies (#[trigger] r[g]).0 < (
            #[trigger] r[h]).0 by {
                assert(front[g].0 < front[h].0);
            }
            assert forall|g: int, i: int|
                0 <= g < r.len() && 0 <= i < r[g].1.len() implies pairs.contains(
                (r[g].0, #[trigger] r[g].1[i]),
            ) by {
                if g == top && i == members.len() - 1 {
                    assert(pairs[pairs.len() - 1] == (r[g].0, r[g].1[i]));
                } else {
                    assert(r[g].1[i] == front[g].1[i]);
                    assert(q.contains((front[g].0, front[g].1[i])));
                    let x = choose|x: int| 0 <= x < q.len() && q[x] == (front[g].0, front[g].1[i]);
                    assert(pairs[x] == (r[g].0, r[g].1[i]));
                }
            }
            assert forall|g: int, i: int, j: int|
                0 <= g < r.len() && 0 <= i < j < r[g].1.len() implies (#[trigger] r[g].1[i]) < (
            #[trigger] r[g].1[j]) by {
                if g == top && j == members.len() - 1 {
                    assert(r[g].1[i] == front[g].1[i]);
                    assert(q.contains((front[g].0, front[g].1[i])));
                    let x = choose|x: int| 0 <= x < q.len() && q[x] == (front[g].0, front[g].1[i]);
                    assert(ahead(q[x], last));
                } else {
                    assert(front[g].1[i] < front[g].1[j]);
                }
            }
            assert forall|x: int| 0 <= x < pairs.len() implies run_has(r, #[trigger] pairs[x]) by {
                if x == pairs.len() - 1 {
                    assert(r[top].1[members.len() - 1] == last.1);
                } else {
                    assert(run_has(front, q[x]));
                    let (g, i) = choose|g: int, i: int|
                        0 <= g < front.len() && 0 <= i < front[g].1.len() && front[g].0 == q[x].0
                            && #[trigger] front[g].1[i] == q[x].1;
                    assert(r[g].1[i] == q[x].1);
                }
            }
        } else {
            let top = front.len() as int;
            assert(r[top] == (last.0, seq![last.1]));
            assert forall|g: int| 0 <= g < top implies r[g] == front[g] by {}
            assert forall|g: int, h: int| 0 <= g < h < r.len() implies (#[trigger] r[g]).0 < (
            #[trigger] r[h]).0 by {
                if h == top {
                    assert(front.last().0 == q.last().0);
                    assert(ahead(q[q.len() - 1], last));
                    if g < top - 1 {
                        assert(front[g].0 < front[top - 1].0);
                    }
                } else {
                    assert(front[g].0 < front[h].0);
                }
            }
            assert forall|g: int, i: int|
                0 <= g < r.len() && 0 <= i < r[g].1.len() implies pairs.contains(
                (r[g].0, #[trigger] r[g].1[i]),
            ) by {
                if g == top {
                    assert(pairs[pairs.len() - 1] == (r[g].0, r[g].1[i]));
                } else {
                    assert(q.contains((front[g].0, front[g].1[i])));
                    let x = choose|x: int| 0 <= x < q.len() && q[x] == (front[g].0, front[g].1[i]);
                    assert(pairs[x] == (r[g].0, r[g].1[i]));
                }
            }
            assert forall|g: int, i: int, j: int|
                0 <= g < r.len() && 0 <= i < j < r[g].1.len() implies (#[trigger] r[g].1[i]) < (
            #[trigger] r[g].1[j]) by {
                if g < top {
                    assert(front[g].1[i] < front[g].1[j]);
                }
            }
            assert forall|x: int| 0 <= x < pairs.len() implies run_has(r, #[trigger] pairs[x]) by {
                if x == pairs.len() - 1 {
                    assert(r[top].1[0] == last.1);
                } else {
                    assert(run_has(front, q[x]));
                    let (g, i) = choose|g: int, i: int|
                        0 <= g < front.len() && 0 <= i < front[g].1.len() && front[g].0 == q[x].0
                            && #[trigger] front[g].1[i] == q[x].1;
                    assert(r[g].1[i] == q[x].1);
                }
            }
        }
    }
}

/// The runs of the pairs of the pattern categories below `k` are the groups
/// of those categories.
pub proof fn lemma_runs_are_groups(
    kinds: Seq<NodeSpec>,
    pairs: Seq<(i32, u16)>,
    groups: Seq<(i32, Vec<u16>)>,
    k: int,
)
    requires
        paired(kinds, pairs, k),
        group_views(groups) == runs(pairs),
    ensures
        grouped(kinds, groups, k),
{
    let r = runs(pairs);
    lemma_runs_fit(pairs);
    assert(groups.len() == r.len());
    assert forall|g: int| 0 <= g < groups.len() implies r[g] == (
        (#[trigger] groups[g]).0,
        groups[g].1@,
    ) by {
        assert(group_views(groups)[g] == (groups[g].0, groups[g].1@));
    }
    assert forall|g: int, i: int| 0 <= g < groups.len() && 0 <= i < groups[g].1@.len() implies {
        &&& #[trigger] member(groups, g, i) < k
        &&& pattern_at(kinds, member(groups, g, i))
        &&& precedence_at(kinds, member(groups, g, i)) == level(groups, g)
    } by {
        assert(r[g] == (groups[g].0, groups[g].1@));
        assert(pairs.contains((r[g].0, r[g].1[i])));
        let x = choose|x: int| 0 <= x < pairs.len() && pairs[x] == (r[g].0, r[g].1[i]);
        assert(pairs_up(kinds, pairs[x], k));
    }
    assert forall|g: int, h: int| 0 <= g < h < groups.len() implies #[trigger] level(groups, g)
        < #[trigger] level(groups, h) by {
        assert(r[g].0 < r[h].0);
        assert(r[g] == (groups[g].0, groups[g].1@));
        assert(r[h] == (groups[h].0, groups[h].1@));
    }
    assert forall|g: int, i: int, j: int|
        0 <= g < groups.len() && 0 <= i < j < groups[g].1@.len() implies #[trigger] member(
        groups,
        g,
        i,
    ) < #[trigger] member(groups, g, j) by {
        assert(r[g] == (groups[g].0, groups[g].1@));
        assert(r[g].1[i] < r[g].1[j]);
    }
    assert forall|n: int| 0 <= n < k && #[trigger] pattern_at(kinds, n) implies in_groups(
        groups,
        n,
    ) by {
        let x = choose|x: int| 0 <= x < pairs.len() && (#[trigger] pairs[x]).1 == n;
        assert(run_has(r, pairs[x]));
        let (g, i) = choose|g: int, i: int|
            0 <= g < r.len() && 0 <= i < r[g].1.len() && r[g].0 == pairs[x].0
                && #[trigger] r[g].1[i] == pairs[x].1;
        assert(r[g] == (groups[g].0, groups[g].1@));
        assert(member(groups, g, i) == n);
    }
}

/// Puts the pattern category `n`, of precedence `p`, among the pairs: behind
/// those of its precedence and in front of those of a higher one.
fn insert_in_order(
    pairs: &mut Vec<(i32, u16)>,
    p: i32,
    n: u16,
    Ghost(kinds): Ghost<Seq<NodeSpec>>,
)
    requires
        paired(kinds, old(pairs)@, n as int),
        pattern_at(kinds, n as int),
        precedence_at(kinds, n as int) == p,
    ensures
        paired(kinds, final(pairs)@, n + 1),
{
    let ghost before = pairs@;
    let mut at: usize = 0;
    while at < pairs.len() && pairs[at].0 <= p
        invariant
            at <= pairs.len(),
            pairs@ == before,
            forall|h: int| 0 <= h < at ==> (#[trigger] before[h]).0 <= p,
        decreases pairs.len() - at,
    {
        at += 1;
    }
    pairs.insert(at, (p, n));
    proof {
        let after = pairs@;
        let here = at as int;
        assert forall|h: int| 0 <= h < here implies after[h] == before[h] by {}
        assert forall|h: int| here < h < after.len() implies after[h] == before[h - 1] by {}
        assert forall|h: int| here <= h < before.len() implies (#[trigger] before[h]).0 > p by {
            if h > here {
                assert(ahead(before[here], before[h]));
            }
        }
        assert forall|i: int, j: int| 0 <= i < j < after.len() implies ahead(
            #[trigger] after[i],
            #[trigger] after[j],
        ) by {
            if j < here {
                assert(ahead(before[i], before[j]));
            } else if j == here {
                assert(pairs_up(kinds, before[i], n as int));
            } else if i < here {
                assert(ahead(before[i], before[j - 1]));
            } else if i == here {
                assert(before[j - 1].0 > p);
            } else {
                assert(ahead(before[i - 1], before[j - 1]));
            }
        }
        assert forall|i: int| 0 <= i < after.len() implies pairs_up(
            kinds,
            #[trigger] after[i],
            n + 1,
        ) by {
            if i < here {
                assert(pairs_up(kinds, before[i], n as int));
            } else if i > here {
                assert(pairs_up(kinds, before[i - 1], n as int));
            }
        }
        assert forall|m: int| 0 <= m < n + 1 && #[trigger] pattern_at(kinds, m) implies exists|
            i: int,
        | 0 <= i < after.len() && (#[trigger] after[i]).1 == m by {
            if m == n {
                assert(after[here].1 == m);
            } else {
                let i = choose|i: int| 0 <= i < before.len() && (#[trigger] before[i]).1 == m;
                if i < here {
                    assert(after[i].1 == m);
                } else {
                    assert(after[i + 1].1 == m);
                }
            }
        }
    }
}

/// A grammar: its node kinds, the fallback category for text that nothing
/// accepts, and the token categories laid out for classification.
pub struct Language {
    nodes: Vec<NodeSpec>,
    lex_error: u16,
    constants: Vec<u16>,
    regexes: Vec<(i32, Vec<u16>)>,
    error: NodeSpec,
}

impl Language {
    /// The table of node kinds.
    pub closed spec fn kinds(&self) -> Seq<NodeSpec> {
        self.nodes@
    }

    /// The id of the fallback category.
    pub closed spec fn fallback(&self) -> u16 {
        self.lex_error
    }

    /// The grammar's invariant: the table fits the ids, the fallback is the
    /// first lexing-error category, and the classification tables hold every
    /// token category of the table in its place.
    pub closed spec fn wf(&self) -> bool {
        &&& self.nodes@.len() <= 65535
        &&& lex_error_at(self.nodes@, self.lex_error as int)
        &&& forall|k: int| 0 <= k < self.lex_error ==> !lex_error_at(self.nodes@, k)
        &&& self.error is Error
        &&& listed(self.nodes@, self.constants@, self.nodes@.len() as int)
        &&& grouped(self.nodes@, self.regexes@, self.nodes@.len() as int)
    }

    /// Whether `tp` is the id of a token category of this grammar.
    pub open spec fn token_kind(&self, tp: u16) -> bool {
        tp < self.kinds().len() && self.kinds()[tp as int] is Token
    }

    /// The category with id `tp`.
    pub open spec fn category(&self, tp: u16) -> TokenSpec {
        self.kinds()[tp as int]->Token_0
    }

    /// Makes a grammar of a table of node kinds. The table must fit the ids
    /// below the one reserved for errors and hold a lexing-error category.
    pub fn new(nodes: Vec<NodeSpec>) -> (r: Result<Language, GrammarError>)
        ensures
            match r {
                Ok(language) => {
                    &&& language.wf()
                    &&& language.kinds() == nodes@
                    &&& nodes@.len() <= 65535
                    &&& lex_error_at(nodes@, language.fallback() as int)
                    &&& forall|k: int| 0 <= k < language.fallback() ==> !lex_error_at(nodes@, k)
                },
                Err(GrammarError::TooManyNodes) => nodes@.len() > 65535,
                Err(GrammarError::NoLexError) => {
                    &&& nodes@.len() <= 65535
                    &&& forall|k: int| 0 <= k < nodes@.len() ==> !lex_error_at(nodes@, k)
                },
            },
    {
        if nodes.len() > 65535 {
            return Err(GrammarError::TooManyNodes);
        }
        let mut found: Option<u16> = None;
        let mut constants: Vec<u16> = Vec::new();
        let mut pairs: Vec<(i32, u16)> = Vec::new();
        let mut index: u16 = 0;
        while (index as usize) < nodes.len()
            invariant
                index <= nodes@.len() <= 65535,
                found matches Some(f) ==> f < index && lex_error_at(nodes@, f as int) && forall|
                    k: int,
                | 0 <= k < f ==> !lex_error_at(nodes@, k),
                found is None ==> forall|k: int| 0 <= k < index ==> !lex_error_at(nodes@, k),
                listed(nodes@, constants@, index as int),
                paired(nodes@, pairs@, index as int),
            decreases nodes@.len() - index,
        {
            let ghost before = constants@;
            match &nodes[index as usize] {
                NodeSpec::Token(token) => {
                    if found.is_none() && token.is_lex_error() {
                        found = Some(index);
                    }
                    match token {
                        TokenSpec::Constant { .. } => {
                            constants.push(index);
                            proof {
                                assert forall|n: int|
                                    0 <= n < index + 1 && #[trigger] constant_at(
                                        nodes@,
                                        n,
                                    ) implies exists|i: int|
                                    0 <= i < constants@.len() && #[trigger] constants@[i]
                                        == n by {
                                    if n == index {
                                        assert(constants@[before.len() as int] == n);
                                    } else {
                                        let i = choose|i: int|
                                            0 <= i < before.len() && #[trigger] before[i] == n;
                                        assert(constants@[i] == n);
                                    }
                                }
                            }
                        },
                        TokenSpec::Regex { precedence, .. } => {
                            insert_in_order(&mut pairs, *precedence, index, Ghost(nodes@));
                        },
                    }
                },
                _ => {},
            }
            index += 1;
        }
        let ghost sorted = pairs@;
        let regexes = group_runs(pairs);
        proof {
            lemma_runs_are_groups(nodes@, sorted, regexes@, nodes@.len() as int);
        }
        match found {
            Some(lex_error) => Ok(
                Language { nodes, lex_error, constants, regexes, error: NodeSpec::Error },
            ),
            None => Err(GrammarError::NoLexError),
        }
    }

    /// The fallback is a token category of the lexing-error class, and no
    /// separator.
    pub proof fn lemma_fallback(&self)
        requires
            self.wf(),
        ensures
            lex_error_at(self.kinds(), self.fallback() as int),
            self.token_kind(self.fallback()),
            self.category(self.fallback()).lex_error(),
            !self.category(self.fallback()).separator_class(),
            self.kinds().len() <= 65535,
    {
    }

    /// The number of node kinds.
    pub fn node_count(&self) -> (n: usize)
        ensures
            n == self.kinds().len(),
    {
        self.nodes.len()
    }

    /// The id of the fallback category for text that nothing accepts.
    pub fn lex_error(&self) -> (tp: u16)
        requires
            self.wf(),
        ensures
            tp == self.fallback(),
            self.token_kind(tp),
            self.category(tp).lex_error(),
            forall|k: int| 0 <= k < tp ==> !lex_error_at(self.kinds(), k),
    {
        self.lex_error
    }

    /// The node kind with id `n`. The reserved id names the error kind.
    pub fn node(&self, n: u16) -> (kind: &NodeSpec)
        requires
            self.wf(),
            n == ERROR_KIND || n < self.kinds().len(),
        ensures
            n == ERROR_KIND ==> *kind is Error,
            n < self.kinds().len() ==> *kind == self.kinds()[n as int],
    {
        if n == ERROR_KIND {
            &self.error
        } else {
            &self.nodes[n as usize]
        }
    }

    /// For each node kind, whether it is a token category that accepts `text`.
    pub fn accepted_by(&self, text: &str) -> (accepted: Vec<bool>)
        ensures
            accepted@ == acceptance(self.kinds(), text@),
    {
        let mut accepted: Vec<bool> = Vec::new();
        let mut n: usize = 0;
        while n < self.nodes.len()
            invariant
                n <= self.nodes@.len(),
                accepted@.len() == n,
                forall|k: int|
                    0 <= k < n ==> accepted@[k] == acceptance(self.nodes@, text@)[k],
            decreases self.nodes@.len() - n,
        {
            let hit = match &self.nodes[n] {
                NodeSpec::Token(token) => token.accept(text),
                _ => false,
            };
            accepted.push(hit);
            n += 1;
        }
        assert(accepted@ =~= acceptance(self.nodes@, text@));
        accepted
    }

    /// Classifies the text that the node kinds marked in `accepted` accept.
    pub fn resolve(&self, accepted: &Vec<bool>) -> (o: Classification)
        requires
            self.wf(),
        ensures
            outcome(self.kinds(), accepted@, o),
    {
        let ghost kinds = self.nodes@;
        let mut c: usize = 0;
        while c < self.constants.len()
            invariant
                self.wf(),
                kinds == self.nodes@,
                c <= self.constants@.len(),
                forall|i: int| 0 <= i < c ==> !marked(accepted@, #[trigger] self.constants@[i] as int),
            decreases self.constants@.len() - c,
        {
            let n = self.constants[c];
            if (n as usize) < accepted.len() && accepted[n as usize] {
                proof {
                    assert forall|k: int| 0 <= k < n && #[trigger] constant_at(kinds, k) implies !marked(
                        accepted@,
                        k,
                    ) by {
                        let i = choose|i: int|
                            0 <= i < self.constants@.len() && #[trigger] self.constants@[i] == k;
                        if i >= c {
                            assert(self.constants@[c as int] <= self.constants@[i]);
                        }
                    }
                }
                return Classification::Category(n);
            }
            c += 1;
        }
        proof {
            assert forall|k: int| #[trigger] constant_at(kinds, k) implies !marked(accepted@, k) by {
                let i = choose|i: int|
                    0 <= i < self.constants@.len() && #[trigger] self.constants@[i] == k;
            }
        }
        let mut g: usize = 0;
        while g < self.regexes.len()
            invariant
                self.wf(),
                kinds == self.nodes@,
                g <= self.regexes@.len(),
                forall|k: int| #[trigger] constant_at(kinds, k) ==> !marked(accepted@, k),
                forall|h: int, i: int|
                    0 <= h < g && 0 <= i < self.regexes@[h].1@.len() ==> !marked(
                        accepted@,
                        #[trigger] member(self.regexes@, h, i),
                    ),
            decreases self.regexes@.len() - g,
        {
            let group = &self.regexes[g].1;
            let mut hits: usize = 0;
            let mut first: u16 = 0;
            let ghost mut first_at: int = 0;
            let ghost mut second_at: int = 0;
            let mut i: usize = 0;
            while i < group.len()
                invariant
                    i <= group@.len(),
                    group@ == self.regexes@[g as int].1@,
                    0 <= g < self.regexes@.len(),
                    hits <= i,
                    hits == 0 ==> forall|j: int|
                        0 <= j < i ==> !marked(accepted@, #[trigger] member(self.regexes@, g as int, j)),
                    hits >= 1 ==> 0 <= first_at < i && member(self.regexes@, g as int, first_at)
                        == first && marked(accepted@, first as int),
                    hits == 1 ==> forall|j: int|
                        0 <= j < i && j != first_at ==> !marked(
                            accepted@,
                            #[trigger] member(self.regexes@, g as int, j),
                        ),
                    hits >= 2 ==> 0 <= second_at < i && second_at != first_at && marked(
                        accepted@,
                        member(self.regexes@, g as int, second_at),
                    ),
                decreases group@.len() - i,
            {
                let n = group[i];
                assert(member(self.regexes@, g as int, i as int) == n);
                if (n as usize) < accepted.len() && accepted[n as usize] {
                    if hits == 0 {
                        first = n;
                        proof {
                            first_at = i as int;
                        }
                    } else {
                        proof {
                            second_at = i as int;
                        }
                    }
                    hits += 1;
                }
                i += 1;
            }
            if hits == 1 {
                proof {
                    self.lemma_lowest(accepted@, g as int, first_at);
                    assert forall|m: int|
                        #[trigger] pattern_at(kinds, m) && marked(accepted@, m) && m
                            != first implies precedence_at(kinds, m) > precedence_at(
                        kinds,
                        first as int,
                    ) by {
                        let (h, j) = choose|h: int, j: int|
                            0 <= h < self.regexes@.len() && 0 <= j < self.regexes@[h].1@.len()
                                && #[trigger] member(self.regexes@, h, j) == m;
                        if h == g {
                            assert(j != first_at);
                        } else if h < g {
                        } else {
                            assert(level(self.regexes@, g as int) < level(self.regexes@, h));
                        }
                    }
                }
                return Classification::Category(first);
            } else if hits > 1 {
                proof {
                    self.lemma_lowest(accepted@, g as int, first_at);
                    let a = member(self.regexes@, g as int, first_at);
                    let b = member(self.regexes@, g as int, second_at);
                    if first_at < second_at {
                        assert(a < b);
                    } else {
                        assert(b < a);
                    }
                    assert(pattern_at(kinds, a) && pattern_at(kinds, b));
                }
                return Classification::Ambiguous;
            }
            g += 1;
        }
        proof {
            assert forall|m: int| #[trigger] pattern_at(kinds, m) implies !marked(accepted@, m) by {
                let (h, j) = choose|h: int, j: int|
                    0 <= h < self.regexes@.len() && 0 <= j < self.regexes@[h].1@.len()
                        && #[trigger] member(self.regexes@, h, j) == m;
            }
        }
        Classification::Unmatched
    }

    /// With no accepting member in the groups before `g`, the member `i` of
    /// group `g` has the lowest precedence of the pattern categories that
    /// accept.
    proof fn lemma_lowest(&self, accepted: Seq<bool>, g: int, i: int)
        requires
            self.wf(),
            0 <= g < self.regexes@.len(),
            0 <= i < self.regexes@[g].1@.len(),
            forall|h: int, j: int|
                0 <= h < g && 0 <= j < self.regexes@[h].1@.len() ==> !marked(
                    accepted,
                    #[trigger] member(self.regexes@, h, j),
                ),
        ensures
            pattern_at(self.nodes@, member(self.regexes@, g, i)),
            precedence_at(self.nodes@, member(self.regexes@, g, i)) == level(self.regexes@, g),
            forall|m: int|
                #[trigger] pattern_at(self.nodes@, m) && marked(accepted, m) ==> precedence_at(
                    self.nodes@,
                    m,
                ) >= level(self.regexes@, g),
    {
        let kinds = self.nodes@;
        assert(member(self.regexes@, g, i) < kinds.len());
        assert forall|m: int|
            #[trigger] pattern_at(kinds, m) && marked(accepted, m) implies precedence_at(kinds, m)
            >= level(self.regexes@, g) by {
            let (h, j) = choose|h: int, j: int|
                0 <= h < self.regexes@.len() && 0 <= j < self.regexes@[h].1@.len()
                    && #[trigger] member(self.regexes@, h, j) == m;
            if h > g {
                assert(level(self.regexes@, g) < level(self.regexes@, h));
            }
        }
    }

    /// Classifies `text`: constant categories first, then the pattern
    /// categories by ascending precedence.
    pub fn classify(&self, text: &str) -> (o: Classification)
        requires
            self.wf(),
        ensures
            outcome(self.kinds(), acceptance(self.kinds(), text@), o),
    {
        let accepted = self.accepted_by(text);
        self.resolve(&accepted)
    }

    /// The category of `str`, if it has exactly one: `None` when the text is
    /// ambiguous or nothing accepts it.
    pub fn try_lex(&self, str: &str) -> (r: Option<u16>)
        requires
            self.wf(),
        ensures
            match r {
                Some(tp) => outcome(
                    self.kinds(),
                    acceptance(self.kinds(), str@),
                    Classification::Category(tp),
                ),
                None => outcome(
                    self.kinds(),
                    acceptance(self.kinds(), str@),
                    Classification::Ambiguous,
                ) || outcome(self.kinds(), acceptance(self.kinds(), str@), Classification::Unmatched),
            },
    {
        match self.classify(str) {
            Classification::Category(tp) => Some(tp),
            _ => None,
        }
    }

    /// The role that a child of kind `child` plays under a parent of kind
    /// `parent`: start, end or separator where the parent is a bracketed tree
    /// that names the child's kind so, and plain otherwise.
    pub fn role(&self, parent: u16, child: u16) -> (r: Role)
        ensures
            r == role_of(self.kinds(), parent as int, child),
    {
        if (parent as usize) < self.nodes.len() {
            match &self.nodes[parent as usize] {
                NodeSpec::Tree { start, sep, end } => {
                    if holds_kind(start, child) {
                        Role::Start
                    } else if holds_kind(end, child) {
                        Role::End
                    } else if holds_kind(sep, child) {
                        Role::Sep
                    } else {
                        Role::Plain
                    }
                },
                _ => Role::Plain,
            }
        } else {
            Role::Plain
        }
    }
}

} // verus!
