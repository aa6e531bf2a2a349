//! Parse forests, and the first Earley sets from which a forest is built.
//!
//! An Earley item is written here as a triple of integers
//! `(rule, dot_index, end_lexeme_index)`, where `rule` is the position in the
//! grammar of the first rule equal to the item's rule. Two items are then
//! equal exactly when their rules, dots and columns are, and the sets of
//! items are kept in insertion order by `linked_hash_set`.

use linked_hash_set::LinkedHashSet;
use vstd::prelude::*;

use crate::earley_laws::{lemma_second_set_predicts, lemma_second_set_scans};
use crate::grammar::{Rule, RuleView, SymbolView};

verus! {

/// A parse forest: a leaf of some kind, a node with its children, or a
/// group of alternative trees.
#[derive(Debug)]
pub enum Forest {
    Leaf { kind: String },
    Node { kind: String, leaves: Vec<Forest> },
    Nodes { nodes: Vec<Forest> },
}

/// An Earley parse state: a rule, how much of its right-hand side has been
/// recognised, and the lexeme index at which that part ends.
#[derive(Clone, Debug, PartialEq, Eq, Hash)]
pub struct ParseState {
    pub rule: Rule,
    pub dot_index: usize,
    pub end_lexeme_index: usize,
}

/// An Earley item: `(rule, dot_index, end_lexeme_index)`, the rule given by
/// its first position in the grammar.
pub type Item = (usize, usize, usize);

/// `linked_hash_set::LinkedHashSet`, a hash set that keeps its items in
/// insertion order; opaque here, its items given by `set_items`.
#[verifier::external_type_specification]
#[verifier::external_body]
#[verifier::reject_recursive_types(T)]
#[verifier::reject_recursive_types(S)]
pub struct ExLinkedHashSet<T, S>(LinkedHashSet<T, S>);

/// The items of a linked hash set, in its order (insertion order, an item
/// inserted again having moved to the back).
pub uninterp spec fn set_items(set: LinkedHashSet<(usize, usize, usize)>) -> Seq<
    (usize, usize, usize),
>;

/// The order after `item` is inserted into a set holding `items`: any earlier
/// copy of it leaves its place, and it stands last.
pub open spec fn moved_to_back(items: Seq<Item>, item: Item) -> Seq<Item> {
    items.filter(differs_from(item)).push(item)
}

/// The test "is not `item`".
pub open spec fn differs_from(item: Item) -> spec_fn(Item) -> bool {
    |other: Item| other != item
}

/// `LinkedHashSet::new`: an empty set.
#[verifier::external_body]
pub(crate) fn item_set_new() -> (set: LinkedHashSet<Item>)
    ensures
        set_items(set) == Seq::<Item>::empty(),
{
    LinkedHashSet::new()
}

/// `LinkedHashSet::insert`: adds `item`, or moves it to the back of the
/// order if it was there already; `true` when it was not there.
#[verifier::external_body]
pub(crate) fn item_set_insert(set: &mut LinkedHashSet<Item>, item: Item) -> (fresh: bool)
    ensures
        fresh == !set_items(*old(set)).contains(item),
        set_items(*final(set)) == moved_to_back(set_items(*old(set)), item),
{
    set.insert(item)
}

/// `LinkedHashSet::iter`, copied into a vector: the items in the set's
/// order, none twice.
#[verifier::external_body]
pub(crate) fn item_set_items(set: &LinkedHashSet<Item>) -> (items: Vec<Item>)
    ensures
        items@ == set_items(*set),
        items@.no_duplicates(),
{
    set.iter().copied().collect()
}

/// The rules of a grammar, as values.
pub open spec fn rule_views(grammar: Seq<Rule>) -> Seq<RuleView> {
    grammar.map_values(|r: Rule| r@)
}

/// The first position of `rule` in `rules` (`rules.len()` if it is absent).
pub open spec fn first_index(rules: Seq<RuleView>, rule: RuleView) -> nat
    decreases rules.len(),
{
    if rules.len() == 0 {
        0
    } else if rules[0] == rule {
        0
    } else {
        1 + first_index(rules.drop_first(), rule)
    }
}

/// Whether `id` is the first position of the rule found there.
pub open spec fn canonical(rules: Seq<RuleView>, id: int) -> bool {
    &&& 0 <= id < rules.len()
    &&& forall|k: int| 0 <= k < id ==> rules[k] != rules[id]
}

/// Whether every item of every set names its rule by its first position
/// in the grammar.
pub open spec fn sets_interned(rules: Seq<RuleView>, sets: Seq<LinkedHashSet<Item>>) -> bool {
    forall|k: int| 0 <= k < sets.len() ==> items_interned(rules, #[trigger] set_items(sets[k]))
}

/// Whether every item names its rule by its first position in the grammar.
pub open spec fn items_interned(rules: Seq<RuleView>, items: Seq<Item>) -> bool {
    forall|m: int| 0 <= m < items.len() ==> canonical(rules, (#[trigger] items[m]).0 as int)
}

/// `first_index` is the first position that holds the rule.
pub proof fn lemma_first_index(rules: Seq<RuleView>, rule: RuleView, i: int)
    requires
        0 <= i < rules.len(),
        rules[i] == rule,
        forall|k: int| 0 <= k < i ==> rules[k] != rule,
    ensures
        first_index(rules, rule) == i,
    decreases i,
{
    if i > 0 {
        lemma_first_index(rules.drop_first(), rule, i - 1);
    }
}

/// `first_index` of a rule found in the list is a position holding that
/// rule, and no earlier position holds it.
pub proof fn lemma_first_index_found(rules: Seq<RuleView>, rule: RuleView)
    requires
        rules.contains(rule),
    ensures
        first_index(rules, rule) < rules.len(),
        rules[first_index(rules, rule) as int] == rule,
        canonical(rules, first_index(rules, rule) as int),
    decreases rules.len(),
{
    if rules[0] != rule {
        let k = choose|k: int| 0 <= k < rules.len() && rules[k] == rule;
        assert(rules.drop_first()[k - 1] == rule);
        lemma_first_index_found(rules.drop_first(), rule);
        let f = first_index(rules.drop_first(), rule) as int;
        assert forall|m: int| 0 <= m < f + 1 implies #[trigger] rules[m] != rules[f + 1] by {
            if m > 0 {
                assert(rules[m] == rules.drop_first()[m - 1]);
            }
        }
    }
}

/// Items name rules faithfully: two rules of the grammar get the same
/// first position exactly when they are equal.
pub proof fn lemma_rule_ids_identify_rules(rules: Seq<RuleView>, a: RuleView, b: RuleView)
    requires
        rules.contains(a),
        rules.contains(b),
    ensures
        (first_index(rules, a) == first_index(rules, b)) <==> (a == b),
{
    lemma_first_index_found(rules, a);
    lemma_first_index_found(rules, b);
}

/// The position of the first rule of the grammar equal to `rule`, if any.
pub fn rule_index(grammar: &[Rule], rule: &Rule) -> (index: Option<usize>)
    ensures
        match index {
            Some(i) => i == first_index(rule_views(grammar@), rule@) && canonical(
                rule_views(grammar@),
                i as int,
            ) && rule_views(grammar@)[i as int] == rule@,
            None => !rule_views(grammar@).contains(rule@),
        },
{
    let ghost rules = rule_views(grammar@);
    let n = grammar.len();
    for i in 0..n
        invariant
            n == grammar@.len(),
            rules == rule_views(grammar@),
            forall|k: int| 0 <= k < i ==> rules[k] != rule@,
    {
        if grammar[i].same_as(rule) {
            proof {
                lemma_first_index(rules, rule@, i as int);
            }
            return Some(i);
        }
    }
    proof {
        assert forall|k: int| 0 <= k < rules.len() implies rules[k] != rule@ by {}
    }
    None
}

/// For each rule of the grammar, the position of the first rule equal to it.
fn canonical_ids(grammar: &[Rule]) -> (ids: Vec<usize>)
    ensures
        ids.len() == grammar.len(),
        forall|j: int|
            0 <= j < ids.len() ==> ids@[j] == first_index(
                rule_views(grammar@),
                rule_views(grammar@)[j],
            ) && canonical(rule_views(grammar@), ids@[j] as int),
{
    let ghost rules = rule_views(grammar@);
    let n = grammar.len();
    let mut ids: Vec<usize> = Vec::new();
    for j in 0..n
        invariant
            n == grammar@.len(),
            rules == rule_views(grammar@),
            ids.len() == j,
            forall|k: int|
                0 <= k < j ==> ids@[k] == first_index(rules, rules[k]) && canonical(
                    rules,
                    ids@[k] as int,
                ),
    {
        let found = rule_index(grammar, &grammar[j]);
        proof {
            assert(rules[j as int] == grammar@[j as int]@);
            assert(rules.contains(rules[j as int]));
        }
        ids.push(found.unwrap());
    }
    ids
}

/// The item standing for a parse state, or `None` when its rule is not in
/// the grammar.
pub fn intern_state(grammar: &[Rule], state: &ParseState) -> (item: Option<Item>)
    ensures
        match item {
            Some(it) => it.0 == first_index(rule_views(grammar@), state.rule@) && canonical(
                rule_views(grammar@),
                it.0 as int,
            ) && rule_views(grammar@)[it.0 as int] == state.rule@ && it.1 == state.dot_index
                && it.2 == state.end_lexeme_index,
            None => !rule_views(grammar@).contains(state.rule@),
        },
{
    match rule_index(grammar, &state.rule) {
        Some(i) => Some((i, state.dot_index, state.end_lexeme_index)),
        None => None,
    }
}

/// The items that open the first set: those of `items` with the dot at the
/// start and ending at lexeme 0.
pub open spec fn initial_items(items: Seq<Item>) -> Seq<Item> {
    items.filter(starts_at_origin())
}

/// The test "the dot is at the start and the item ends at lexeme 0".
pub open spec fn starts_at_origin() -> spec_fn(Item) -> bool {
    |it: Item| it.1 == 0 && it.2 == 0
}

/// Whether `items` holds an item of the same rule as `q` with the dot one
/// symbol further.
pub open spec fn has_successor(items: Seq<Item>, q: Item) -> bool {
    successor_among(items, q, items.len() as int)
}

/// `q` with its dot moved over one symbol.
pub open spec fn advanced(q: Item) -> Item {
    (q.0, (q.1 + 1) as usize, q.2)
}

/// The items of `first` whose successor `next` holds, each advanced.
pub open spec fn scanned_items(first: Seq<Item>, next: Seq<Item>) -> Seq<Item> {
    first.filter(has_successor_in(next)).map_values(advancing())
}

/// The test "`next` holds a successor of the item".
pub open spec fn has_successor_in(next: Seq<Item>) -> spec_fn(Item) -> bool {
    |q: Item| has_successor(next, q)
}

/// The map "advance the dot by one symbol".
pub open spec fn advancing() -> spec_fn(Item) -> Item {
    |q: Item| advanced(q)
}

/// Whether one of the first `j` of `items` is a successor of `q`.
pub open spec fn successor_among(items: Seq<Item>, q: Item, j: int) -> bool {
    exists|k: int| 0 <= k < j && #[trigger] items[k].0 == q.0 && items[k].1 == q.1 + 1
}

/// The predictions, at lexeme 1, of the first `n` rules of the grammar
/// whose left-hand side is `symbol`, each named by its first position.
pub open spec fn predictions_upto(rules: Seq<RuleView>, symbol: SymbolView, n: int) -> Seq<Item>
    decreases n,
{
    if n <= 0 {
        seq![]
    } else {
        predictions_upto(rules, symbol, n - 1) + if rules[n - 1].from == symbol {
            seq![(first_index(rules, rules[n - 1]) as usize, 0usize, 1usize)]
        } else {
            seq![]
        }
    }
}

/// The predictions made for `q`: one per rule for the symbol after its
/// dot, where that symbol names a rule; none otherwise.
pub open spec fn predicted_for(rules: Seq<RuleView>, q: Item) -> Seq<Item> {
    let to = rules[q.0 as int].to;
    if q.1 < to.len() && to[q.1 as int] is NonTerminal {
        predictions_upto(rules, to[q.1 as int], rules.len() as int)
    } else {
        seq![]
    }
}

/// The predictions made for each of `qs`, in order.
pub open spec fn all_predictions(rules: Seq<RuleView>, qs: Seq<Item>) -> Seq<Item>
    decreases qs.len(),
{
    if qs.len() == 0 {
        seq![]
    } else {
        all_predictions(rules, qs.drop_last()) + predicted_for(rules, qs.last())
    }
}

/// The order of a set holding `items` after each of `more` is inserted in
/// turn.
pub open spec fn inserted_all(items: Seq<Item>, more: Seq<Item>) -> Seq<Item>
    decreases more.len(),
{
    if more.len() == 0 {
        items
    } else {
        moved_to_back(inserted_all(items, more.drop_last()), more.last())
    }
}

/// The second Earley set: the first set's items that the states at lexeme 1
/// advance, then, when more lexemes follow, the predictions they call for.
pub open spec fn second_items(
    rules: Seq<RuleView>,
    first: Seq<Item>,
    next: Seq<Item>,
    more: bool,
) -> Seq<Item> {
    let scanned = scanned_items(first, next);
    if more {
        inserted_all(scanned, all_predictions(rules, scanned))
    } else {
        scanned
    }
}

/// Removing what differs from an absent item changes nothing.
proof fn lemma_filter_absent(items: Seq<Item>, item: Item)
    requires
        !items.contains(item),
    ensures
        items.filter(differs_from(item)) == items,
        moved_to_back(items, item) == items.push(item),
    decreases items.len(),
{
    reveal_with_fuel(Seq::filter, 1);
    if items.len() > 0 {
        assert(items.drop_last().len() < items.len());
        assert(!items.drop_last().contains(item)) by {
            if items.drop_last().contains(item) {
                let k = choose|k: int| 0 <= k < items.drop_last().len() && items.drop_last()[k]
                    == item;
                assert(items[k] == item);
            }
        }
        lemma_filter_absent(items.drop_last(), item);
        assert(items.last() != item) by {
            assert(items[items.len() - 1] == items.last());
        }
        assert(items.drop_last().push(items.last()) =~= items);
    }
}

/// Inserting an item into a set: afterwards the set holds what it held
/// and the item, and, if it held nothing twice, still holds nothing twice.
pub proof fn lemma_moved_to_back(items: Seq<Item>, item: Item)
    ensures
        items.no_duplicates() ==> moved_to_back(items, item).no_duplicates(),
        moved_to_back(items, item).to_set() == items.to_set().insert(item),
{
    lemma_filter_differs(items, item);
    let kept = items.filter(differs_from(item));
    assert(moved_to_back(items, item).to_set() =~= items.to_set().insert(item)) by {
        assert forall|x: Item| #[trigger] moved_to_back(items, item).to_set().contains(x) <==> (
        items.to_set().contains(x) || x == item) by {
            if x == item {
                assert(moved_to_back(items, item)[kept.len() as int] == item);
            }
            if x != item && items.contains(x) {
                assert(kept.contains(x));
                let k = choose|k: int| 0 <= k < kept.len() && kept[k] == x;
                assert(moved_to_back(items, item)[k] == x);
            }
            if moved_to_back(items, item).contains(x) && x != item {
                let k = choose|k: int|
                    0 <= k < moved_to_back(items, item).len() && moved_to_back(items, item)[k]
                        == x;
                assert(k < kept.len());
                assert(kept[k] == x);
                assert(kept.contains(x));
            }
        }
    }
    if items.no_duplicates() {
        assert forall|a: int, b: int|
            0 <= a < moved_to_back(items, item).len() && 0 <= b < moved_to_back(items, item).len()
                && a != b implies moved_to_back(items, item)[a] != moved_to_back(items, item)[b] by {
            if a < kept.len() && b < kept.len() {
            } else if a < kept.len() {
                assert(kept.contains(kept[a]));
            } else if b < kept.len() {
                assert(kept.contains(kept[b]));
            }
        }
    }
}

/// What is left after removing `item` from `items`: exactly the other items,
/// and nothing twice if `items` held nothing twice.
proof fn lemma_filter_differs(items: Seq<Item>, item: Item)
    ensures
        forall|x: Item|
            #[trigger] items.filter(differs_from(item)).contains(x) <==> (items.contains(x) && x
                != item),
        items.no_duplicates() ==> items.filter(differs_from(item)).no_duplicates(),
    decreases items.len(),
{
    reveal_with_fuel(Seq::filter, 1);
    let kept = items.filter(differs_from(item));
    if items.len() > 0 {
        let rest = items.drop_last();
        let last = items.last();
        assert(items[items.len() - 1] == last);
        lemma_filter_differs(rest, item);
        assert forall|x: Item| #[trigger] items.contains(x) <==> (rest.contains(x) || x == last) by {
            if items.contains(x) && x != last {
                let k = choose|k: int| 0 <= k < items.len() && items[k] == x;
                assert(rest[k] == x);
            }
            if rest.contains(x) {
                let k = choose|k: int| 0 <= k < rest.len() && rest[k] == x;
                assert(items[k] == x);
            }
        }
        let rest_kept = rest.filter(differs_from(item));
        if last != item {
            assert(kept == rest_kept.push(last));
            assert forall|x: Item| #[trigger] kept.contains(x) <==> (rest_kept.contains(x) || x
                == last) by {
                if kept.contains(x) && x != last {
                    let k = choose|k: int| 0 <= k < kept.len() && kept[k] == x;
                    assert(rest_kept[k] == x);
                }
                if rest_kept.contains(x) {
                    let k = choose|k: int| 0 <= k < rest_kept.len() && rest_kept[k] == x;
                    assert(kept[k] == x);
                }
                if x == last {
                    assert(kept[kept.len() - 1] == last);
                }
            }
            if items.no_duplicates() {
                assert(!rest.contains(last)) by {
                    if rest.contains(last) {
                        let k = choose|k: int| 0 <= k < rest.len() && rest[k] == last;
                        assert(items[k] == items[items.len() - 1]);
                    }
                }
                assert(!rest_kept.contains(last));
                assert forall|a: int, b: int|
                    0 <= a < kept.len() && 0 <= b < kept.len() && a != b implies kept[a]
                    != kept[b] by {
                    if a < rest_kept.len() && b < rest_kept.len() {
                        assert(rest.no_duplicates()) by {
                            assert forall|c: int, d: int|
                                0 <= c < rest.len() && 0 <= d < rest.len() && c != d implies rest[c]
                                != rest[d] by {
                                assert(items[c] != items[d]);
                            }
                        }
                    } else if a < rest_kept.len() {
                        assert(rest_kept.contains(kept[a]));
                    } else if b < rest_kept.len() {
                        assert(rest_kept.contains(kept[b]));
                    }
                }
            }
        } else {
            assert(kept == rest_kept);
            if items.no_duplicates() {
                assert forall|c: int, d: int|
                    0 <= c < rest.len() && 0 <= d < rest.len() && c != d implies rest[c]
                    != rest[d] by {
                    assert(items[c] != items[d]);
                }
            }
        }
    }
}

/// Inserting several items into a set: afterwards the set holds what it
/// held and every item inserted, and, if it held nothing twice, still holds
/// nothing twice.
pub proof fn lemma_inserted_all(items: Seq<Item>, more: Seq<Item>)
    ensures
        items.no_duplicates() ==> inserted_all(items, more).no_duplicates(),
        inserted_all(items, more).to_set() == items.to_set() + more.to_set(),
    decreases more.len(),
{
    if more.len() == 0 {
        assert(more.to_set() =~= Set::<Item>::empty());
        assert(items.to_set() + more.to_set() =~= items.to_set());
    } else {
        let rest = more.drop_last();
        lemma_inserted_all(items, rest);
        lemma_moved_to_back(inserted_all(items, rest), more.last());
        assert(more.to_set() =~= rest.to_set().insert(more.last())) by {
            assert forall|x: Item| #[trigger] more.to_set().contains(x) <==> (rest.to_set().contains(x)
                || x == more.last()) by {
                if more.contains(x) && x != more.last() {
                    let k = choose|k: int| 0 <= k < more.len() && more[k] == x;
                    assert(rest[k] == x);
                }
                if rest.contains(x) {
                    let k = choose|k: int| 0 <= k < rest.len() && rest[k] == x;
                    assert(more[k] == x);
                }
                if x == more.last() {
                    assert(more[more.len() - 1] == x);
                }
            }
        }
        assert(inserted_all(items, more).to_set() =~= items.to_set() + more.to_set());
    }
}

/// Inserting again the item that was inserted last leaves the order as it is.
proof fn lemma_reinsert_last(items: Seq<Item>, item: Item)
    requires
        !items.contains(item),
    ensures
        moved_to_back(items.push(item), item) == items.push(item),
{
    items.lemma_filter_push(item, differs_from(item));
    lemma_filter_absent(items, item);
}

/// The items of the first set all have the dot at the start, end at
/// lexeme 0, and come from `items`.
proof fn lemma_initial_items(items: Seq<Item>)
    ensures
        forall|k: int|
            0 <= k < initial_items(items).len() ==> (#[trigger] initial_items(items)[k]).1 == 0
                && initial_items(items)[k].2 == 0 && items.contains(initial_items(items)[k]),
{
    assert forall|k: int| 0 <= k < initial_items(items).len() implies (
    #[trigger] initial_items(items)[k]).1 == 0 && initial_items(items)[k].2 == 0 && items.contains(
        initial_items(items)[k],
    ) by {
        items.lemma_filter_pred(starts_at_origin(), k);
        items.lemma_filter_contains_rev(starts_at_origin(), initial_items(items)[k]);
    }
}

/// Advancing the items of a duplicate-free sequence, all with the dot at
/// the start, never produces the advance of an item outside it.
proof fn lemma_advanced_fresh(first: Seq<Item>, pred: spec_fn(Item) -> bool, q: Item)
    requires
        !first.contains(q),
        q.1 == 0,
        forall|k: int| 0 <= k < first.len() ==> first[k].1 == 0,
    ensures
        !first.filter(pred).map_values(advancing()).contains(advanced(q)),
    decreases first.len(),
{
    reveal_with_fuel(Seq::filter, 1);
    if first.len() > 0 {
        let rest = first.drop_last();
        assert(!rest.contains(q)) by {
            if rest.contains(q) {
                let k = choose|k: int| 0 <= k < rest.len() && rest[k] == q;
                assert(first[k] == q);
            }
        }
        lemma_advanced_fresh(rest, pred, q);
        let last = first.last();
        assert(first[first.len() - 1] == last);
        if pred(last) {
            assert(first.filter(pred).map_values(advancing()) =~= rest.filter(pred).map_values(
                advancing(),
            ).push(advanced(last)));
            assert(advanced(last) != advanced(q));
        } else {
            assert(first.filter(pred) == rest.filter(pred));
        }
    }
}

/// Builds the first Earley sets for a parse forest; the forest itself is
/// still a single placeholder leaf, `X`.
///
/// The first set holds the items of `states_vector[0]` with the dot at the
/// start and ending at lexeme 0. The second holds those items advanced
/// over the next symbol where `states_vector[1]` has a state one symbol
/// further along, followed, when more lexemes follow, by a prediction at
/// lexeme 1 for each grammar rule of a symbol that an advanced item
/// expects. The other sets stay empty.
pub fn build_forest(grammar: &[Rule], states_vector: &Vec<LinkedHashSet<Item>>) -> (built: (
    Forest,
    Vec<LinkedHashSet<Item>>,
))
    requires
        states_vector.len() >= 2 || (states_vector.len() == 1 && initial_items(
            set_items(states_vector@[0]),
        ).len() == 0),
        sets_interned(rule_views(grammar@), states_vector@),
    ensures
        built.0 matches Forest::Leaf { kind } && kind@ == seq!['X'],
        built.1.len() == states_vector.len(),
        set_items(built.1@[0]) == initial_items(set_items(states_vector@[0])),
        states_vector.len() >= 2 ==> set_items(built.1@[1]) == second_items(
            rule_views(grammar@),
            initial_items(set_items(states_vector@[0])),
            set_items(states_vector@[1]),
            states_vector.len() > 2,
        ),
        forall|k: int| 2 <= k < built.1.len() ==> set_items(built.1@[k]).len() == 0,
        forall|k: int| 0 <= k < built.1.len() ==> set_items(#[trigger] built.1@[k]).no_duplicates(),
        sets_interned(rule_views(grammar@), built.1@),
        states_vector.len() >= 2 ==> forall|x: Item|
            x.2 == 0 ==> (#[trigger] set_items(built.1@[1]).contains(x) <==> (x.1 == 1
                && set_items(states_vector@[0]).contains((x.0, 0usize, 0usize)) && exists|k: int|
                0 <= k < set_items(states_vector@[1]).len() && #[trigger] set_items(
                states_vector@[1],
            )[k].0 == x.0 && set_items(states_vector@[1])[k].1 == 1)),
        states_vector.len() > 2 ==> forall|q: Item, j: int|
            #![trigger set_items(built.1@[1]).contains(q), rule_views(grammar@)[j]]
            set_items(built.1@[1]).contains(q) && q.2 == 0 && q.0 < grammar.len() && q.1
                < rule_views(grammar@)[q.0 as int].to.len() && rule_views(grammar@)[q.0 as int].to[q.1 as int] is NonTerminal
                && 0 <= j < grammar.len() && rule_views(grammar@)[j].from == rule_views(
                grammar@,
            )[q.0 as int].to[q.1 as int] ==> set_items(built.1@[1]).contains(
                (first_index(rule_views(grammar@), rule_views(grammar@)[j]) as usize, 0usize, 1usize),
            ),
{
    let ghost rules = rule_views(grammar@);
    let n = states_vector.len();
    let ghost first = initial_items(set_items(states_vector@[0]));

    // The first set: the states at lexeme 0 that start their rule there.
    let states0 = item_set_items(&states_vector[0]);
    let mut e0 = item_set_new();
    for i in 0..states0.len()
        invariant
            states0@ == set_items(states_vector@[0]),
            states0@.no_duplicates(),
            set_items(e0) == initial_items(states0@.take(i as int)),
            set_items(e0).no_duplicates(),
    {
        let state = states0[i];
        proof {
            reveal_with_fuel(Seq::filter, 1);
            assert(states0@.take(i + 1).drop_last() =~= states0@.take(i as int));
            assert(states0@.take(i + 1).last() == state);
            assert(initial_items(states0@.take(i + 1)) == if state.1 == 0 && state.2 == 0 {
                initial_items(states0@.take(i as int)).push(state)
            } else {
                initial_items(states0@.take(i as int))
            });
        }
        if state.1 == 0 && state.2 == 0 {
            proof {
                assert(!initial_items(states0@.take(i as int)).contains(state)) by {
                    if initial_items(states0@.take(i as int)).contains(state) {
                        states0@.take(i as int).lemma_filter_contains_rev(starts_at_origin(), state);
                        let k = choose|k: int| 0 <= k < i && states0@.take(i as int)[k] == state;
                        assert(states0@[k] == states0@[i as int]);
                    }
                }
                lemma_filter_absent(initial_items(states0@.take(i as int)), state);
                lemma_moved_to_back(set_items(e0), state);
            }
            item_set_insert(&mut e0, state);
        }
    }
    assert(states0@.take(states0@.len() as int) =~= states0@);

    if n == 1 {
        let mut sets: Vec<LinkedHashSet<Item>> = Vec::new();
        sets.push(e0);
        return (Forest::Leaf { kind: leaf_kind() }, sets);
    }

    // The second set, first part: each item of the first set advanced over
    // the next symbol, where the states at lexeme 1 hold its successor.
    let first_items = item_set_items(&e0);
    proof {
        let sv0 = set_items(states_vector@[0]);
        lemma_initial_items(sv0);
        assert(items_interned(rules, sv0));
        assert forall|k: int| 0 <= k < first.len() implies canonical(
            rules,
            (#[trigger] first[k]).0 as int,
        ) by {
            let w = choose|w: int| 0 <= w < sv0.len() && sv0[w] == first[k];
            assert(canonical(rules, sv0[w].0 as int));
        }
    }
    let states1 = item_set_items(&states_vector[1]);
    let ghost next = states1@;
    let mut e1 = item_set_new();
    for i in 0..first_items.len()
        invariant
            first_items@ == first,
            first.no_duplicates(),
            forall|k: int| 0 <= k < first.len() ==> (#[trigger] first[k]).1 == 0 && first[k].2 == 0,
            next == states1@,
            set_items(e1) == scanned_items(first.take(i as int), next),
            set_items(e1).no_duplicates(),
    {
        let q = first_items[i];
        let next_dot = q.1 + 1;
        let ghost base = scanned_items(first.take(i as int), next);
        proof {
            assert(!first.take(i as int).contains(q)) by {
                if first.take(i as int).contains(q) {
                    let k = choose|k: int| 0 <= k < i && first.take(i as int)[k] == q;
                    assert(first[k] == first[i as int]);
                }
            }
            lemma_advanced_fresh(first.take(i as int), has_successor_in(next), q);
        }
        for j in 0..states1.len()
            invariant
                next == states1@,
                q.1 == 0,
                next_dot == q.1 + 1,
                !base.contains(advanced(q)),
                base.no_duplicates(),
                set_items(e1).no_duplicates(),
                set_items(e1) == if successor_among(next, q, j as int) {
                    base.push(advanced(q))
                } else {
                    base
                },
        {
            let p = states1[j];
            if p.0 == q.0 && p.1 == next_dot {
                proof {
                    if successor_among(next, q, j as int) {
                        lemma_reinsert_last(base, advanced(q));
                    } else {
                        lemma_filter_absent(base, advanced(q));
                    }
                    assert(next[j as int] == p);
                    lemma_moved_to_back(set_items(e1), advanced(q));
                }
                item_set_insert(&mut e1, (q.0, next_dot, q.2));
            }
            proof {
                if successor_among(next, q, j + 1) && !(p.0 == q.0 && p.1 == next_dot) {
                    let k = choose|k: int|
                        0 <= k < j + 1 && #[trigger] next[k].0 == q.0 && next[k].1 == q.1 + 1;
                    assert(successor_among(next, q, j as int)) by {
                        assert(next[k].0 == q.0);
                    }
                }
                if successor_among(next, q, j as int) {
                    let k = choose|k: int|
                        0 <= k < j && #[trigger] next[k].0 == q.0 && next[k].1 == q.1 + 1;
                    assert(successor_among(next, q, j + 1)) by {
                        assert(next[k].0 == q.0);
                    }
                }
                if p.0 == q.0 && p.1 == next_dot {
                    assert(successor_among(next, q, j + 1)) by {
                        assert(next[j as int].0 == q.0);
                    }
                }
            }
        }
        proof {
            reveal_with_fuel(Seq::filter, 1);
            assert(first.take(i + 1).drop_last() =~= first.take(i as int));
            assert(first.take(i + 1).last() == q);
            let kept = first.take(i as int).filter(has_successor_in(next));
            if has_successor(next, q) {
                assert(first.take(i + 1).filter(has_successor_in(next)) == kept.push(q));
                assert(kept.push(q).map_values(advancing()) =~= kept.map_values(advancing()).push(
                    advanced(q),
                ));
            } else {
                assert(first.take(i + 1).filter(has_successor_in(next)) == kept);
            }
        }
    }
    assert(first.take(first.len() as int) =~= first);
    let ghost scanned = scanned_items(first, next);

    // The second set, second part, when more lexemes follow: for each item
    // expecting a rule's symbol, a prediction of every rule for it.
    proof {
        assert forall|m: int| 0 <= m < scanned.len() implies canonical(
                rules,
                (#[trigger] scanned[m]).0 as int,
            ) by {
                let k = lemma_scanned_from(first, next, m);
                assert(canonical(rules, first[k].0 as int));
            }
    }
    if n > 2 {
        let ids = canonical_ids(grammar);
        let snapshot = item_set_items(&e1);
        for i in 0..snapshot.len()
            invariant
                snapshot@ == scanned,
                rules == rule_views(grammar@),
                forall|m: int| 0 <= m < scanned.len() ==> canonical(rules, (#[trigger] scanned[m]).0 as int),
                ids.len() == grammar.len(),
                forall|j: int|
                    0 <= j < ids.len() ==> ids@[j] == first_index(rules, rules[j]) && canonical(
                        rules,
                        ids@[j] as int,
                    ),
                set_items(e1) == inserted_all(scanned, all_predictions(rules, scanned.take(i as int))),
                set_items(e1).no_duplicates(),
                items_interned(rules, set_items(e1)),
        {
            let q = snapshot[i];
            let ghost done = all_predictions(rules, scanned.take(i as int));
            proof {
                assert(canonical(rules, scanned[i as int].0 as int));
                assert(scanned.take(i + 1).drop_last() =~= scanned.take(i as int));
                assert(scanned.take(i + 1).last() == q);
            }
            let rule = &grammar[q.0];
            proof {
                assert(rules[q.0 as int] == rule@);
            }
            if q.1 < rule.to.len() && rule.to[q.1].is_non_terminal() {
                let symbol = &rule.to[q.1];
                proof {
                    assert(rule@.to[q.1 as int] == symbol@);
                    assert(done + predictions_upto(rules, symbol@, 0) =~= done);
                }
                for j in 0..grammar.len()
                    invariant
                        rules == rule_views(grammar@),
                        ids.len() == grammar.len(),
                        forall|j: int|
                            0 <= j < ids.len() ==> ids@[j] == first_index(rules, rules[j])
                                && canonical(rules, ids@[j] as int),
                        set_items(e1) == inserted_all(
                            scanned,
                            done + predictions_upto(rules, symbol@, j as int),
                        ),
                        set_items(e1).no_duplicates(),
                        items_interned(rules, set_items(e1)),
                {
                    let ghost before = done + predictions_upto(rules, symbol@, j as int);
                    proof {
                        assert(rules[j as int] == grammar@[j as int]@);
                    }
                    if grammar[j].from.same_as(symbol) {
                        let item = (ids[j], 0usize, 1usize);
                        proof {
                            assert(done + predictions_upto(rules, symbol@, j + 1) =~= before.push(
                                item,
                            ));
                            assert(before.push(item).drop_last() =~= before);
                            let old_items = set_items(e1);
                            lemma_moved_to_back(old_items, item);
                            let new_items = moved_to_back(old_items, item);
                            assert forall|m: int| 0 <= m < new_items.len() implies canonical(
                                rules,
                                (#[trigger] new_items[m]).0 as int,
                            ) by {
                                assert(new_items.to_set().contains(new_items[m]));
                                if new_items[m] != item {
                                    assert(old_items.to_set().contains(new_items[m]));
                                    let w = choose|w: int|
                                        0 <= w < old_items.len() && old_items[w] == new_items[m];
                                    assert(canonical(rules, old_items[w].0 as int));
                                }
                            }
                        }
                        item_set_insert(&mut e1, item);
                    } else {
                        proof {
                            assert(done + predictions_upto(rules, symbol@, j + 1) =~= before);
                        }
                    }
                }
                proof {
                    assert(predicted_for(rules, q) == predictions_upto(
                        rules,
                        symbol@,
                        grammar.len() as int,
                    ));
                }
            } else {
                proof {
                    assert(predicted_for(rules, q) =~= Seq::<Item>::empty());
                    assert(done + predicted_for(rules, q) =~= done);
                }
            }
        }
        proof {
            assert(scanned.take(scanned.len() as int) =~= scanned);
        }
    }

    let grammar_len = grammar.len();
    proof {
        let s0 = set_items(states_vector@[0]);
        let second = second_items(rules, first, next, n > 2);
        assert(items_interned(rules, s0));
        assert(rules.len() == grammar_len);
        assert forall|x: Item| x.2 == 0 implies (#[trigger] second.contains(x) <==> (x.1 == 1
            && s0.contains((x.0, 0usize, 0usize)) && exists|k: int|
            0 <= k < next.len() && #[trigger] next[k].0 == x.0 && next[k].1 == 1)) by {
            lemma_second_set_scans(rules, s0, next, n > 2, x);
        }
        if n > 2 {
            assert forall|q: Item, j: int|
                #![trigger second.contains(q), rules[j]]
                second.contains(q) && q.2 == 0 && q.0 < rules.len() && q.1 < rules[q.0 as int].to.len()
                    && rules[q.0 as int].to[q.1 as int] is NonTerminal && 0 <= j < rules.len()
                    && rules[j].from == rules[q.0 as int].to[q.1 as int] implies second.contains(
                (first_index(rules, rules[j]) as usize, 0usize, 1usize),
            ) by {
                lemma_second_set_predicts(rules, s0, next, q, j);
            }
        }
    }
    let mut sets: Vec<LinkedHashSet<Item>> = Vec::new();
    sets.push(e0);
    sets.push(e1);
    for k in 2..n
        invariant
            sets.len() == k,
            set_items(sets@[0]) == first,
            set_items(sets@[1]) == second_items(rules, first, next, n > 2),
            forall|m: int| 2 <= m < k ==> set_items(#[trigger] sets@[m]).len() == 0,
            forall|m: int| 0 <= m < k ==> set_items(#[trigger] sets@[m]).no_duplicates(),
            sets_interned(rules, sets@),
    {
        sets.push(item_set_new());
    }
    (Forest::Leaf { kind: leaf_kind() }, sets)
}

/// Each advanced item comes from an item of the first set with the same rule.
proof fn lemma_scanned_from(first: Seq<Item>, next: Seq<Item>, m: int) -> (k: int)
    requires
        0 <= m < scanned_items(first, next).len(),
    ensures
        0 <= k < first.len(),
        scanned_items(first, next)[m].0 == first[k].0,
{
    let kept = first.filter(has_successor_in(next));
    assert(kept.contains(kept[m]));
    first.lemma_filter_contains_rev(has_successor_in(next), kept[m]);
    let k = choose|k: int| 0 <= k < first.len() && first[k] == kept[m];
    assert(scanned_items(first, next)[m] == advanced(kept[m]));
    k
}

/// The kind of the placeholder leaf: `X`.
fn leaf_kind() -> (kind: String)
    ensures
        kind@ == seq!['X'],
{
    let x = "X";
    proof {
        reveal_strlit("X");
    }
    x.to_owned()
}

} // verus!
