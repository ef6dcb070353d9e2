//! The canonical order of a record's dependencies.
//!
//! Dependencies are ordered field by field, in the order in which the fields
//! are declared: by name first, then by requirement, and so on. The order is
//! total, so a list of dependencies has exactly one sorted arrangement.

use vstd::prelude::*;
use vstd::seq_lib::*;
use crate::order::{
    compare_text, compare_texts, lemma_text_order, lemma_texts_order_flip,
    lemma_texts_order_transitive, text_order, texts_order, Order,
};
use crate::record::{dependencies_of, Dependency, DependencyKind, DependencyModel};

verus! {

/// `false` comes before `true`.
pub open spec fn bool_order(a: bool, b: bool) -> Order {
    if a == b {
        Order::Equal
    } else if b {
        Order::Less
    } else {
        Order::Greater
    }
}

/// The place of a kind among the kinds.
pub open spec fn kind_rank(kind: DependencyKind) -> int {
    match kind {
        DependencyKind::Normal => 0,
        DependencyKind::Build => 1,
        DependencyKind::Dev => 2,
    }
}

/// Kinds are ordered as they are declared; an absent kind comes first.
pub open spec fn kind_order(a: Option<DependencyKind>, b: Option<DependencyKind>) -> Order {
    match (a, b) {
        (None, None) => Order::Equal,
        (None, Some(_)) => Order::Less,
        (Some(_), None) => Order::Greater,
        (Some(x), Some(y)) => if kind_rank(x) < kind_rank(y) {
            Order::Less
        } else if kind_rank(x) > kind_rank(y) {
            Order::Greater
        } else {
            Order::Equal
        },
    }
}

/// Optional texts are ordered as texts; an absent text comes first.
pub open spec fn optional_text_order(a: Option<Seq<char>>, b: Option<Seq<char>>) -> Order {
    match (a, b) {
        (None, None) => Order::Equal,
        (None, Some(_)) => Order::Less,
        (Some(_), None) => Order::Greater,
        (Some(x), Some(y)) => text_order(x, y),
    }
}

/// The canonical order of dependencies: the first field that differs decides.
#[verifier::opaque]
pub open spec fn dependency_order(a: DependencyModel, b: DependencyModel) -> Order {
    text_order(a.name, b.name).then_with(
        text_order(a.req, b.req).then_with(
            texts_order(a.features, b.features).then_with(
                bool_order(a.optional, b.optional).then_with(
                    bool_order(a.default_features, b.default_features).then_with(
                        optional_text_order(a.target, b.target).then_with(
                            kind_order(a.kind, b.kind).then_with(
                                optional_text_order(a.package, b.package),
                            ),
                        ),
                    ),
                ),
            ),
        ),
    )
}

/// `a` may stand before `b` in a sorted list.
pub open spec fn precedes(a: DependencyModel, b: DependencyModel) -> bool {
    dependency_order(a, b) != Order::Greater
}

proof fn lemma_optional_text_order(a: Option<Seq<char>>, b: Option<Seq<char>>, c: Option<Seq<char>>)
    ensures
        optional_text_order(b, a) == optional_text_order(a, b).flip(),
        optional_text_order(a, b) == Order::Equal <==> a == b,
        optional_text_order(a, b) == Order::Less && optional_text_order(b, c) == Order::Less
            ==> optional_text_order(a, c) == Order::Less,
{
    if a is Some && b is Some {
        lemma_text_order(a->0, b->0, b->0);
        if c is Some {
            lemma_text_order(a->0, b->0, c->0);
        }
    }
}

/// The canonical order is a total order: exchanging the operands flips the
/// outcome, and only a dependency itself compares `Equal` to it.
pub proof fn lemma_dependency_order_total(a: DependencyModel, b: DependencyModel)
    ensures
        dependency_order(b, a) == dependency_order(a, b).flip(),
        dependency_order(a, b) == Order::Equal <==> a == b,
        precedes(a, b) || precedes(b, a),
{
    reveal(dependency_order);
    lemma_text_order(a.name, b.name, b.name);
    lemma_text_order(a.req, b.req, b.req);
    lemma_texts_order_flip(a.features, b.features);
    lemma_optional_text_order(a.target, b.target, b.target);
    lemma_optional_text_order(a.package, b.package, b.package);
}

/// The canonical order is transitive.
pub proof fn lemma_dependency_order_transitive(
    a: DependencyModel,
    b: DependencyModel,
    c: DependencyModel,
)
    requires
        precedes(a, b),
        precedes(b, c),
    ensures
        precedes(a, c),
{
    reveal(dependency_order);
    lemma_dependency_order_total(a, b);
    lemma_dependency_order_total(b, c);
    lemma_dependency_order_total(a, c);
    if a != b && b != c {
        lemma_text_order(a.name, b.name, c.name);
        lemma_text_order(a.name, c.name, c.name);
        lemma_text_order(b.name, c.name, c.name);
        lemma_text_order(a.req, b.req, c.req);
        lemma_text_order(a.req, c.req, c.req);
        lemma_text_order(b.req, c.req, c.req);
        lemma_texts_order_flip(a.features, b.features);
        lemma_texts_order_flip(b.features, c.features);
        lemma_texts_order_flip(a.features, c.features);
        if texts_order(a.features, b.features) == Order::Less && texts_order(
            b.features,
            c.features,
        ) == Order::Less {
            lemma_texts_order_transitive(a.features, b.features, c.features);
        }
        lemma_optional_text_order(a.target, b.target, c.target);
        lemma_optional_text_order(a.target, c.target, c.target);
        lemma_optional_text_order(b.target, c.target, c.target);
        lemma_optional_text_order(a.package, b.package, c.package);
        lemma_optional_text_order(a.package, c.package, c.package);
        lemma_optional_text_order(b.package, c.package, c.package);
    }
}

fn compare_bools(a: bool, b: bool) -> (r: Order)
    ensures
        r == bool_order(a, b),
{
    if a == b {
        Order::Equal
    } else if b {
        Order::Less
    } else {
        Order::Greater
    }
}

fn rank_of(kind: DependencyKind) -> (r: u8)
    ensures
        r == kind_rank(kind),
{
    match kind {
        DependencyKind::Normal => 0,
        DependencyKind::Build => 1,
        DependencyKind::Dev => 2,
    }
}

fn compare_kinds(a: &Option<DependencyKind>, b: &Option<DependencyKind>) -> (r: Order)
    ensures
        r == kind_order(*a, *b),
{
    match (a, b) {
        (None, None) => Order::Equal,
        (None, Some(_)) => Order::Less,
        (Some(_), None) => Order::Greater,
        (Some(x), Some(y)) => {
            let rx = rank_of(*x);
            let ry = rank_of(*y);
            if rx < ry {
                Order::Less
            } else if rx > ry {
                Order::Greater
            } else {
                Order::Equal
            }
        },
    }
}

fn compare_optional_texts(a: &Option<String>, b: &Option<String>) -> (r: Order)
    ensures
        r == optional_text_order(crate::record::text_of(*a), crate::record::text_of(*b)),
{
    match (a, b) {
        (None, None) => Order::Equal,
        (None, Some(_)) => Order::Less,
        (Some(_), None) => Order::Greater,
        (Some(x), Some(y)) => compare_text(x.as_str(), y.as_str()),
    }
}

/// Compares two dependencies in the canonical order.
pub fn compare_dependencies(a: &Dependency, b: &Dependency) -> (r: Order)
    ensures
        r == dependency_order(a@, b@),
{
    proof {
        reveal(dependency_order);
    }
    let o = compare_text(a.name.as_str(), b.name.as_str());
    if !o.is_equal() {
        return o;
    }
    let o = compare_text(a.req.as_str(), b.req.as_str());
    if !o.is_equal() {
        return o;
    }
    let o = compare_texts(&a.features, &b.features);
    if !o.is_equal() {
        return o;
    }
    let o = compare_bools(a.optional, b.optional);
    if !o.is_equal() {
        return o;
    }
    let o = compare_bools(a.default_features, b.default_features);
    if !o.is_equal() {
        return o;
    }
    let o = compare_optional_texts(&a.target, &b.target);
    if !o.is_equal() {
        return o;
    }
    let o = compare_kinds(&a.kind, &b.kind);
    if !o.is_equal() {
        return o;
    }
    compare_optional_texts(&a.package, &b.package)
}

/// Every dependency of the list may stand before all that follow it.
pub open spec fn ordered(deps: Seq<DependencyModel>) -> bool {
    forall|i: int, j: int| 0 <= i < j < deps.len() ==> precedes(#[trigger] deps[i], #[trigger] deps[j])
}

/// Where a dependency goes into a sorted list: before the first one that it
/// may stand before, or at the end.
pub open spec fn slot(sorted: Seq<DependencyModel>, d: DependencyModel) -> int
    decreases sorted.len(),
{
    if sorted.len() == 0 || precedes(d, sorted[0]) {
        0
    } else {
        1 + slot(sorted.drop_first(), d)
    }
}

/// The dependencies in canonical order: the first goes to its slot among the
/// others, sorted.
pub open spec fn sorted_dependencies(deps: Seq<DependencyModel>) -> Seq<DependencyModel>
    decreases deps.len(),
{
    if deps.len() == 0 {
        Seq::empty()
    } else {
        let rest = sorted_dependencies(deps.drop_first());
        rest.insert(slot(rest, deps[0]), deps[0])
    }
}

/// The slot lies in the list, after everything that the dependency may not
/// stand before, and at something that it may stand before.
pub proof fn lemma_slot(sorted: Seq<DependencyModel>, d: DependencyModel)
    ensures
        0 <= slot(sorted, d) <= sorted.len(),
        forall|j: int| 0 <= j < slot(sorted, d) ==> !precedes(d, #[trigger] sorted[j]),
        slot(sorted, d) < sorted.len() ==> precedes(d, sorted[slot(sorted, d)]),
    decreases sorted.len(),
{
    if !(sorted.len() == 0 || precedes(d, sorted[0])) {
        let rest = sorted.drop_first();
        lemma_slot(rest, d);
        assert forall|j: int| 0 <= j < slot(sorted, d) implies !precedes(d, #[trigger] sorted[j]) by {
            if j > 0 {
                assert(sorted[j] == rest[j - 1]);
            }
        }
        if slot(sorted, d) < sorted.len() {
            assert(sorted[slot(sorted, d)] == rest[slot(rest, d)]);
        }
    }
}

/// A place that has what the slot has is the slot.
proof fn lemma_slot_found(sorted: Seq<DependencyModel>, d: DependencyModel, p: int)
    requires
        0 <= p <= sorted.len(),
        forall|j: int| 0 <= j < p ==> !precedes(d, #[trigger] sorted[j]),
        p < sorted.len() ==> precedes(d, sorted[p]),
    ensures
        slot(sorted, d) == p,
    decreases sorted.len(),
{
    if p > 0 {
        let rest = sorted.drop_first();
        assert(!precedes(d, sorted[0]));
        assert forall|j: int| 0 <= j < p - 1 implies !precedes(d, #[trigger] rest[j]) by {
            assert(rest[j] == sorted[j + 1]);
        }
        if p - 1 < rest.len() {
            assert(rest[p - 1] == sorted[p]);
        }
        lemma_slot_found(rest, d, p - 1);
    }
}

/// Sorting keeps the dependencies: the result holds the same ones, each as
/// often as the list.
pub proof fn lemma_sorted_permutes(deps: Seq<DependencyModel>)
    ensures
        sorted_dependencies(deps).len() == deps.len(),
        sorted_dependencies(deps).to_multiset() == deps.to_multiset(),
    decreases deps.len(),
{
    if deps.len() > 0 {
        let d = deps[0];
        let rest = sorted_dependencies(deps.drop_first());
        lemma_sorted_permutes(deps.drop_first());
        lemma_slot(rest, d);
        to_multiset_insert(rest, slot(rest, d), d);
        to_multiset_insert(deps.drop_first(), 0, d);
        assert(deps =~= deps.drop_first().insert(0, d));
    } else {
        assert(deps =~= Seq::empty());
    }
}

/// Sorting arranges: the result is in canonical order.
pub proof fn lemma_sorted_ordered(deps: Seq<DependencyModel>)
    ensures
        ordered(sorted_dependencies(deps)),
    decreases deps.len(),
{
    if deps.len() > 0 {
        let d = deps[0];
        let rest = sorted_dependencies(deps.drop_first());
        lemma_sorted_ordered(deps.drop_first());
        lemma_slot(rest, d);
        let p = slot(rest, d);
        let all = rest.insert(p, d);
        assert forall|i: int, j: int| 0 <= i < j < all.len() implies precedes(
            #[trigger] all[i],
            #[trigger] all[j],
        ) by {
            if j < p {
                assert(all[i] == rest[i] && all[j] == rest[j]);
            } else if j == p {
                assert(all[i] == rest[i]);
                assert(all[j] == d);
                assert(!precedes(d, rest[i]));
                lemma_dependency_order_total(d, rest[i]);
            } else if i == p {
                assert(all[i] == d);
                assert(all[j] == rest[j - 1]);
                if p < j - 1 {
                    assert(precedes(rest[p], rest[j - 1]));
                    lemma_dependency_order_transitive(d, rest[p], rest[j - 1]);
                }
            } else if i < p {
                assert(all[i] == rest[i] && all[j] == rest[j - 1]);
                assert(precedes(rest[i], rest[j - 1]));
            } else {
                assert(all[i] == rest[i - 1] && all[j] == rest[j - 1]);
                assert(precedes(rest[i - 1], rest[j - 1]));
            }
        }
    }
}

/// Sorting leaves a list in canonical order as it is.
pub proof fn lemma_sorted_is_fixed(deps: Seq<DependencyModel>)
    requires
        ordered(deps),
    ensures
        sorted_dependencies(deps) == deps,
    decreases deps.len(),
{
    if deps.len() > 0 {
        let rest = deps.drop_first();
        assert forall|i: int, j: int| 0 <= i < j < rest.len() implies precedes(
            #[trigger] rest[i],
            #[trigger] rest[j],
        ) by {
            assert(rest[i] == deps[i + 1] && rest[j] == deps[j + 1]);
        }
        lemma_sorted_is_fixed(rest);
        if rest.len() > 0 {
            assert(rest[0] == deps[1]);
            assert(precedes(deps[0], deps[1]));
        }
        assert(rest.insert(0, deps[0]) =~= deps);
    } else {
        assert(deps =~= Seq::empty());
    }
}

/// Sorting twice is sorting once.
pub proof fn lemma_sorted_idempotent(deps: Seq<DependencyModel>)
    ensures
        sorted_dependencies(sorted_dependencies(deps)) == sorted_dependencies(deps),
{
    lemma_sorted_ordered(deps);
    lemma_sorted_is_fixed(sorted_dependencies(deps));
}

/// A list has one sorted arrangement only: two lists in canonical order that
/// hold the same dependencies equally often are the same list.
pub proof fn lemma_sorted_unique(a: Seq<DependencyModel>, b: Seq<DependencyModel>)
    requires
        ordered(a),
        ordered(b),
        a.to_multiset() == b.to_multiset(),
    ensures
        a == b,
    decreases a.len(),
{
    to_multiset_len(a);
    to_multiset_len(b);
    assert(a.len() == b.len());
    if a.len() == 0 {
        assert(a =~= b);
    } else {
        // the first of each list is in the other, and stands before it there
        to_multiset_contains(a, a[0]);
        to_multiset_contains(b, a[0]);
        to_multiset_contains(a, b[0]);
        to_multiset_contains(b, b[0]);
        assert(a.contains(a[0]));
        assert(b.contains(b[0]));
        let i = choose|i: int| 0 <= i < b.len() && b[i] == a[0];
        let j = choose|j: int| 0 <= j < a.len() && a[j] == b[0];
        if i > 0 {
            assert(precedes(b[0], b[i]));
        }
        if j > 0 {
            assert(precedes(a[0], a[j]));
        }
        lemma_dependency_order_total(a[0], b[0]);
        assert(a[0] == b[0]);
        let ra = a.remove(0);
        let rb = b.remove(0);
        assert forall|x: int, y: int| 0 <= x < y < ra.len() implies precedes(
            #[trigger] ra[x],
            #[trigger] ra[y],
        ) by {
            assert(ra[x] == a[x + 1] && ra[y] == a[y + 1]);
        }
        assert forall|x: int, y: int| 0 <= x < y < rb.len() implies precedes(
            #[trigger] rb[x],
            #[trigger] rb[y],
        ) by {
            assert(rb[x] == b[x + 1] && rb[y] == b[y + 1]);
        }
        to_multiset_remove(a, 0);
        to_multiset_remove(b, 0);
        assert(ra.to_multiset() == rb.to_multiset());
        lemma_sorted_unique(ra, rb);
        assert(a =~= seq![a[0]] + ra);
        assert(b =~= seq![b[0]] + rb);
    }
}

/// Sorts dependencies into canonical order.
pub fn sort_dependencies(deps: Vec<Dependency>) -> (r: Vec<Dependency>)
    ensures
        dependencies_of(r@) == sorted_dependencies(dependencies_of(deps@)),
        ordered(dependencies_of(r@)),
        dependencies_of(r@).to_multiset() == dependencies_of(deps@).to_multiset(),
{
    let ghost all = dependencies_of(deps@);
    let mut input = deps;
    let mut out: Vec<Dependency> = Vec::new();
    assert(all.skip(all.len() as int) =~= Seq::empty());
    assert(dependencies_of(out@) =~= Seq::empty());
    while input.len() > 0
        invariant
            input@.len() <= all.len(),
            dependencies_of(input@) == all.take(input@.len() as int),
            dependencies_of(out@) == sorted_dependencies(all.skip(input@.len() as int)),
        decreases input@.len(),
    {
        let ghost n = input@.len() as int;
        let ghost prior = dependencies_of(input@);
        let d = input.pop().unwrap();
        proof {
            assert(d@ == prior[n - 1]);
            assert(d@ == all[n - 1]);
            assert(dependencies_of(input@) =~= all.take(n - 1));
            assert(all.skip(n - 1).drop_first() =~= all.skip(n));
            assert(all.skip(n - 1)[0] == all[n - 1]);
        }
        let ghost rest = dependencies_of(out@);
        let mut p: usize = 0;
        while p < out.len() && compare_dependencies(&d, &out[p]).is_greater()
            invariant
                p <= out.len(),
                rest == dependencies_of(out@),
                forall|j: int| 0 <= j < p ==> !precedes(d@, #[trigger] rest[j]),
            decreases out.len() - p,
        {
            p += 1;
        }
        proof {
            lemma_slot_found(rest, d@, p as int);
        }
        out.insert(p, d);
        assert(dependencies_of(out@) =~= rest.insert(p as int, d@));
    }
    proof {
        assert(all.skip(0) =~= all);
        lemma_sorted_ordered(all);
        lemma_sorted_permutes(all);
    }
    out
}

} // verus!
