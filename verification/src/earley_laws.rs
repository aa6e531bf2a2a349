//! Laws of the second Earley set, stated over the grammar and the state
//! sets themselves: which advanced items it holds, and which predictions.

use vstd::prelude::*;

use crate::forest::{
    advanced, all_predictions, canonical, first_index, has_successor, has_successor_in,
    initial_items, inserted_all, items_interned, lemma_first_index_found, lemma_inserted_all,
    predicted_for, predictions_upto, scanned_items, second_items, starts_at_origin, Item,
};
use crate::grammar::{RuleView, SymbolView};

verus! {

/// An item of a concatenation is an item of one of its parts.
proof fn lemma_concat_contains(a: Seq<Item>, b: Seq<Item>, y: Item)
    ensures
        (a + b).contains(y) <==> (a.contains(y) || b.contains(y)),
{
    if (a + b).contains(y) {
        let k = choose|k: int| 0 <= k < (a + b).len() && (a + b)[k] == y;
        if k >= a.len() {
            assert(b[k - a.len()] == y);
        }
    }
    if a.contains(y) {
        let k = choose|k: int| 0 <= k < a.len() && a[k] == y;
        assert((a + b)[k] == y);
    }
    if b.contains(y) {
        let k = choose|k: int| 0 <= k < b.len() && b[k] == y;
        assert((a + b)[a.len() + k] == y);
    }
}

/// The advanced items are exactly the advances of the first set's items
/// that have a successor.
proof fn lemma_scanned_contains(first: Seq<Item>, next: Seq<Item>, x: Item)
    ensures
        scanned_items(first, next).contains(x) <==> exists|q: Item|
            #[trigger] first.contains(q) && has_successor(next, q) && x == advanced(q),
{
    let pred = has_successor_in(next);
    let kept = first.filter(pred);
    if scanned_items(first, next).contains(x) {
        let m = choose|m: int|
            0 <= m < scanned_items(first, next).len() && scanned_items(first, next)[m] == x;
        assert(kept.contains(kept[m]));
        first.lemma_filter_contains_rev(pred, kept[m]);
        first.lemma_filter_pred(pred, m);
        assert(x == advanced(kept[m]));
        assert(first.contains(kept[m]) && has_successor(next, kept[m]));
    }
    if exists|q: Item| #[trigger] first.contains(q) && has_successor(next, q) && x == advanced(q) {
        let q = choose|q: Item| #[trigger] first.contains(q) && has_successor(next, q) && x
            == advanced(q);
        let i = choose|i: int| 0 <= i < first.len() && first[i] == q;
        first.lemma_filter_contains(pred, i);
        let m = choose|m: int| 0 <= m < kept.len() && kept[m] == q;
        assert(scanned_items(first, next)[m] == x);
    }
}

/// The predictions among the first `n` rules are those rules whose
/// left-hand side is `symbol`, each at its first position, dot 0, lexeme 1.
proof fn lemma_predictions_upto_contains(
    rules: Seq<RuleView>,
    symbol: SymbolView,
    n: int,
    y: Item,
)
    requires
        0 <= n <= rules.len(),
    ensures
        predictions_upto(rules, symbol, n).contains(y) <==> exists|j: int|
            0 <= j < n && rules[j].from == symbol && y == (
            #[trigger] first_index(rules, rules[j]) as usize,
            0usize,
            1usize,
        ),
    decreases n,
{
    if n > 0 {
        lemma_predictions_upto_contains(rules, symbol, n - 1, y);
        let extra = if rules[n - 1].from == symbol {
            seq![(first_index(rules, rules[n - 1]) as usize, 0usize, 1usize)]
        } else {
            seq![]
        };
        lemma_concat_contains(predictions_upto(rules, symbol, n - 1), extra, y);
        if extra.contains(y) {
            assert(extra[0] == y);
        }
        if y == (first_index(rules, rules[n - 1]) as usize, 0usize, 1usize) && rules[n - 1].from
            == symbol {
            assert(extra[0] == y);
        }
    }
}

/// The predictions made for a sequence of items are those made for one of
/// them.
proof fn lemma_all_predictions_contains(rules: Seq<RuleView>, qs: Seq<Item>, y: Item)
    ensures
        all_predictions(rules, qs).contains(y) <==> exists|i: int|
            0 <= i < qs.len() && #[trigger] predicted_for(rules, qs[i]).contains(y),
    decreases qs.len(),
{
    if qs.len() > 0 {
        let rest = qs.drop_last();
        lemma_all_predictions_contains(rules, rest, y);
        lemma_concat_contains(all_predictions(rules, rest), predicted_for(rules, qs.last()), y);
        if exists|i: int| 0 <= i < rest.len() && #[trigger] predicted_for(rules, rest[i]).contains(y) {
            let i = choose|i: int| 0 <= i < rest.len() && #[trigger] predicted_for(rules, rest[i]).contains(y);
            assert(qs[i] == rest[i]);
        }
        if exists|i: int| 0 <= i < qs.len() && #[trigger] predicted_for(rules, qs[i]).contains(y) {
            let i = choose|i: int| 0 <= i < qs.len() && #[trigger] predicted_for(rules, qs[i]).contains(y);
            if i < rest.len() {
                assert(rest[i] == qs[i]);
            }
        }
    }
}

/// Which items the second set holds: the advanced items and the predictions.
proof fn lemma_second_contains(
    rules: Seq<RuleView>,
    s0: Seq<Item>,
    next: Seq<Item>,
    more: bool,
    x: Item,
)
    ensures
        second_items(rules, initial_items(s0), next, more).contains(x) <==> (scanned_items(
            initial_items(s0),
            next,
        ).contains(x) || (more && all_predictions(
            rules,
            scanned_items(initial_items(s0), next),
        ).contains(x))),
{
    let scanned = scanned_items(initial_items(s0), next);
    if more {
        let preds = all_predictions(rules, scanned);
        lemma_inserted_all(scanned, preds);
        assert(inserted_all(scanned, preds).to_set().contains(x) == inserted_all(
            scanned,
            preds,
        ).contains(x));
        assert(scanned.to_set().contains(x) == scanned.contains(x));
        assert(preds.to_set().contains(x) == preds.contains(x));
    }
}

/// An item of the first set is one of `s0` with the dot at the start and
/// ending at lexeme 0.
proof fn lemma_initial_contains(s0: Seq<Item>, q: Item)
    ensures
        initial_items(s0).contains(q) <==> (s0.contains(q) && q.1 == 0 && q.2 == 0),
{
    if initial_items(s0).contains(q) {
        s0.lemma_filter_contains_rev(starts_at_origin(), q);
        let m = choose|m: int| 0 <= m < initial_items(s0).len() && initial_items(s0)[m] == q;
        s0.lemma_filter_pred(starts_at_origin(), m);
    }
    if s0.contains(q) && q.1 == 0 && q.2 == 0 {
        let i = choose|i: int| 0 <= i < s0.len() && s0[i] == q;
        s0.lemma_filter_contains(starts_at_origin(), i);
    }
}

/// An advanced item of the second set is `(rule, 1, 0)`, standing exactly
/// where the states at lexeme 0 hold `(rule, 0, 0)` and the states at lexeme 1
/// hold an item of that rule with the dot after its first symbol.
proof fn lemma_scanned_exactly(s0: Seq<Item>, next: Seq<Item>, x: Item)
    ensures
        scanned_items(initial_items(s0), next).contains(x) <==> (x.1 == 1 && x.2 == 0
            && s0.contains((x.0, 0usize, 0usize)) && exists|k: int|
            0 <= k < next.len() && #[trigger] next[k].0 == x.0 && next[k].1 == 1),
{
    let first = initial_items(s0);
    lemma_scanned_contains(first, next, x);
    if scanned_items(first, next).contains(x) {
        let q = choose|q: Item| #[trigger] first.contains(q) && has_successor(next, q) && x
            == advanced(q);
        lemma_initial_contains(s0, q);
        assert(q == (x.0, 0usize, 0usize));
        let k = choose|k: int| 0 <= k < next.len() && #[trigger] next[k].0 == q.0 && next[k].1 == q.1 + 1;
        assert(next[k].0 == x.0);
    }
    if x.1 == 1 && x.2 == 0 && s0.contains((x.0, 0usize, 0usize)) && exists|k: int|
        0 <= k < next.len() && #[trigger] next[k].0 == x.0 && next[k].1 == 1 {
        let q = (x.0, 0usize, 0usize);
        lemma_initial_contains(s0, q);
        let k = choose|k: int| 0 <= k < next.len() && #[trigger] next[k].0 == x.0 && next[k].1 == 1;
        assert(next[k].0 == q.0);
        assert(has_successor(next, q));
        assert(x == advanced(q));
    }
}

/// Every prediction is `(r, 0, 1)` with `r` the first position of a rule.
proof fn lemma_prediction_shape(rules: Seq<RuleView>, qs: Seq<Item>, y: Item)
    requires
        rules.len() <= usize::MAX,
        items_interned(rules, qs),
        all_predictions(rules, qs).contains(y),
    ensures
        y.1 == 0,
        y.2 == 1,
        canonical(rules, y.0 as int),
        exists|i: int, j: int|
            #![trigger qs[i], rules[j]]
            0 <= i < qs.len() && 0 <= j < rules.len() && qs[i].1 < rules[qs[i].0 as int].to.len()
                && rules[qs[i].0 as int].to[qs[i].1 as int] is NonTerminal && rules[j].from
                == rules[qs[i].0 as int].to[qs[i].1 as int] && y.0 == first_index(
                rules,
                rules[j],
            ),
{
    lemma_all_predictions_contains(rules, qs, y);
    let i = choose|i: int| 0 <= i < qs.len() && #[trigger] predicted_for(rules, qs[i]).contains(y);
    let q = qs[i];
    assert(canonical(rules, q.0 as int));
    let to = rules[q.0 as int].to;
    assert(q.1 < to.len() && to[q.1 as int] is NonTerminal) by {
        if !(q.1 < to.len() && to[q.1 as int] is NonTerminal) {
            assert(predicted_for(rules, q) =~= Seq::<Item>::empty());
        }
    }
    lemma_predictions_upto_contains(rules, to[q.1 as int], rules.len() as int, y);
    let j = choose|j: int|
        0 <= j < rules.len() && rules[j].from == to[q.1 as int] && y == (
        #[trigger] first_index(rules, rules[j]) as usize,
        0usize,
        1usize,
    );
    assert(rules.contains(rules[j]));
    lemma_first_index_found(rules, rules[j]);
    assert(first_index(rules, rules[j]) < rules.len());
    assert(y.0 as int == first_index(rules, rules[j]));
    assert(canonical(rules, y.0 as int));
    assert(qs[i] == q && rules[j] == rules[j]);
}

/// Law: the second set holds an item ending at lexeme 0 exactly when it is
/// `(rule, 1, 0)`, the states at lexeme 0 hold `(rule, 0, 0)`, and the states
/// at lexeme 1 hold an item of that rule with the dot after one symbol.
pub proof fn lemma_second_set_scans(
    rules: Seq<RuleView>,
    s0: Seq<Item>,
    next: Seq<Item>,
    more: bool,
    x: Item,
)
    requires
        rules.len() <= usize::MAX,
        items_interned(rules, s0),
        x.2 == 0,
    ensures
        second_items(rules, initial_items(s0), next, more).contains(x) <==> (x.1 == 1
            && s0.contains((x.0, 0usize, 0usize)) && exists|k: int|
            0 <= k < next.len() && #[trigger] next[k].0 == x.0 && next[k].1 == 1),
{
    lemma_second_contains(rules, s0, next, more, x);
    lemma_scanned_exactly(s0, next, x);
    let scanned = scanned_items(initial_items(s0), next);
    if more && all_predictions(rules, scanned).contains(x) {
        lemma_scanned_interned(rules, s0, next);
        lemma_prediction_shape(rules, scanned, x);
    }
}

/// The advanced items name their rules by first positions, as `s0` does.
proof fn lemma_scanned_interned(rules: Seq<RuleView>, s0: Seq<Item>, next: Seq<Item>)
    requires
        items_interned(rules, s0),
    ensures
        items_interned(rules, scanned_items(initial_items(s0), next)),
{
    let scanned = scanned_items(initial_items(s0), next);
    assert forall|m: int| 0 <= m < scanned.len() implies canonical(
        rules,
        (#[trigger] scanned[m]).0 as int,
    ) by {
        let x = scanned[m];
        assert(scanned.contains(x));
        lemma_scanned_exactly(s0, next, x);
        let k = choose|k: int| 0 <= k < s0.len() && s0[k] == (x.0, 0usize, 0usize);
        assert(canonical(rules, s0[k].0 as int));
    }
}

/// Law: when more lexemes follow, for each advanced item of the second set
/// whose next symbol names a rule, every grammar rule for that symbol is
/// predicted there, at its first position, with the dot at the start and
/// at lexeme 1. No rule is left out, not even the item's own.
pub proof fn lemma_second_set_predicts(
    rules: Seq<RuleView>,
    s0: Seq<Item>,
    next: Seq<Item>,
    q: Item,
    j: int,
)
    requires
        rules.len() <= usize::MAX,
        items_interned(rules, s0),
        second_items(rules, initial_items(s0), next, true).contains(q),
        q.2 == 0,
        q.0 < rules.len(),
        q.1 < rules[q.0 as int].to.len(),
        rules[q.0 as int].to[q.1 as int] is NonTerminal,
        0 <= j < rules.len(),
        rules[j].from == rules[q.0 as int].to[q.1 as int],
    ensures
        second_items(rules, initial_items(s0), next, true).contains(
            (first_index(rules, rules[j]) as usize, 0usize, 1usize),
        ),
{
    let scanned = scanned_items(initial_items(s0), next);
    let y = (first_index(rules, rules[j]) as usize, 0usize, 1usize);
    lemma_second_contains(rules, s0, next, true, q);
    if !scanned.contains(q) {
        lemma_scanned_interned(rules, s0, next);
        lemma_prediction_shape(rules, scanned, q);
    }
    let i = choose|i: int| 0 <= i < scanned.len() && scanned[i] == q;
    let to = rules[q.0 as int].to;
    lemma_predictions_upto_contains(rules, to[q.1 as int], rules.len() as int, y);
    assert(predicted_for(rules, scanned[i]).contains(y));
    lemma_all_predictions_contains(rules, scanned, y);
    lemma_second_contains(rules, s0, next, true, y);
}

/// Law: every item of the second set not ending at lexeme 0 is a
/// prediction: more lexemes follow, it is `(r, 0, 1)` with `r` the first
/// position of a rule, and that rule's left-hand side is the symbol after
/// the dot of an advanced item of the set.
pub proof fn lemma_second_set_predictions_sound(
    rules: Seq<RuleView>,
    s0: Seq<Item>,
    next: Seq<Item>,
    more: bool,
    y: Item,
)
    requires
        rules.len() <= usize::MAX,
        items_interned(rules, s0),
        second_items(rules, initial_items(s0), next, more).contains(y),
        y.2 != 0,
    ensures
        more,
        y.1 == 0,
        y.2 == 1,
        canonical(rules, y.0 as int),
        exists|q: Item, j: int|
            #![trigger second_items(rules, initial_items(s0), next, more).contains(q), rules[j]]
            second_items(rules, initial_items(s0), next, more).contains(q) && q.2 == 0 && 0
                <= j < rules.len() && q.1 < rules[q.0 as int].to.len() && rules[q.0 as int].to[q.1 as int] is NonTerminal
                && rules[j].from == rules[q.0 as int].to[q.1 as int] && y.0 == first_index(
                rules,
                rules[j],
            ),
{
    let scanned = scanned_items(initial_items(s0), next);
    lemma_second_contains(rules, s0, next, more, y);
    lemma_scanned_exactly(s0, next, y);
    lemma_scanned_interned(rules, s0, next);
    lemma_prediction_shape(rules, scanned, y);
    let (i, j) = choose|i: int, j: int|
        #![trigger scanned[i], rules[j]]
        0 <= i < scanned.len() && 0 <= j < rules.len() && scanned[i].1 < rules[scanned[i].0 as int].to.len()
            && rules[scanned[i].0 as int].to[scanned[i].1 as int] is NonTerminal && rules[j].from
            == rules[scanned[i].0 as int].to[scanned[i].1 as int] && y.0 == first_index(
            rules,
            rules[j],
        );
    let q = scanned[i];
    assert(scanned.contains(q));
    lemma_scanned_exactly(s0, next, q);
    lemma_second_contains(rules, s0, next, more, q);
    assert(rules[j] == rules[j]);
}

} // verus!
