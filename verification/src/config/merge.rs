//! Deep merge of YAML documents (later documents win).
//!
//! Semantics: mappings merge per key, recursively; sequences append (left,
//! then right); any other shape is replaced by the right-hand value. Keys
//! are matched by YAML equality (`yaml_equal`), under which `0.0` and `-0.0`
//! are one key and so are two mappings with the same entries in another
//! order. Mapping entries keep the order the merge produces them in: a key
//! found on both sides is taken out (the last entry moves into its place)
//! and re-added at the end, under the right-hand key, with the merged value.
use vstd::prelude::*;

verus! {

/// A YAML number: a non-negative integer, a negative integer, or a float
/// (kept as its IEEE-754 bit pattern).
#[derive(Debug, Clone, Copy, PartialEq, Eq, Structural)]
pub enum YamlNumber {
    PosInt(u64),
    NegInt(i64),
    FloatBits(u64),
}

/// A parsed YAML document. Tags are stored without their leading `!`.
#[derive(Debug, PartialEq)]
pub enum YamlValue {
    Null,
    Bool(bool),
    Number(YamlNumber),
    Str(String),
    Sequence(Vec<YamlValue>),
    Mapping(Vec<(YamlValue, YamlValue)>),
    Tagged(String, Box<YamlValue>),
}

/// The mathematical model of a YAML value.
pub enum YamlModel {
    Null,
    Bool(bool),
    Number(YamlNumber),
    Str(Seq<char>),
    List(Seq<YamlModel>),
    Dict(Seq<(YamlModel, YamlModel)>),
    Tagged(Seq<char>, Box<YamlModel>),
}

pub open spec fn model_of(v: YamlValue) -> YamlModel
    decreases v, 0int,
{
    match v {
        YamlValue::Null => YamlModel::Null,
        YamlValue::Bool(b) => YamlModel::Bool(b),
        YamlValue::Number(n) => YamlModel::Number(n),
        YamlValue::Str(s) => YamlModel::Str(s@),
        YamlValue::Sequence(xs) => YamlModel::List(models_of(xs@)),
        YamlValue::Mapping(ps) => YamlModel::Dict(entries_of(ps@)),
        YamlValue::Tagged(t, b) => YamlModel::Tagged(t@, Box::new(model_of(*b))),
    }
}

pub open spec fn models_of(xs: Seq<YamlValue>) -> Seq<YamlModel>
    decreases xs, xs.len(),
{
    if xs.len() == 0 {
        seq![]
    } else {
        models_of(xs.subrange(0, xs.len() - 1)).push(model_of(xs[xs.len() - 1]))
    }
}

pub open spec fn entries_of(ps: Seq<(YamlValue, YamlValue)>) -> Seq<(YamlModel, YamlModel)>
    decreases ps, ps.len(),
{
    if ps.len() == 0 {
        seq![]
    } else {
        entries_of(ps.subrange(0, ps.len() - 1)).push(
            (model_of(ps[ps.len() - 1].0), model_of(ps[ps.len() - 1].1)),
        )
    }
}

impl View for YamlValue {
    type V = YamlModel;

    open spec fn view(&self) -> YamlModel {
        model_of(*self)
    }
}

pub proof fn lemma_models_of(xs: Seq<YamlValue>)
    ensures
        models_of(xs).len() == xs.len(),
        forall|i: int| 0 <= i < xs.len() ==> #[trigger] models_of(xs)[i] == model_of(xs[i]),
    decreases xs.len(),
{
    if xs.len() > 0 {
        lemma_models_of(xs.subrange(0, xs.len() - 1));
    }
}

pub proof fn lemma_entries_of(ps: Seq<(YamlValue, YamlValue)>)
    ensures
        entries_of(ps).len() == ps.len(),
        forall|i: int|
            0 <= i < ps.len() ==> #[trigger] entries_of(ps)[i] == (
                model_of(ps[i].0),
                model_of(ps[i].1),
            ),
    decreases ps.len(),
{
    if ps.len() > 0 {
        lemma_entries_of(ps.subrange(0, ps.len() - 1));
    }
}

/// Whether the IEEE-754 double with bit pattern `bits` is a NaN.
pub open spec fn float_is_nan(bits: u64) -> bool {
    (bits & 0x7ff0_0000_0000_0000u64) == 0x7ff0_0000_0000_0000u64 && (bits & 0x000f_ffff_ffff_ffffu64)
        != 0
}

/// Whether the IEEE-754 double with bit pattern `bits` is `0.0` or `-0.0`.
pub open spec fn float_is_zero(bits: u64) -> bool {
    (bits & 0x7fff_ffff_ffff_ffffu64) == 0
}

/// YAML equality of two floats: numeric equality (so `0.0` equals `-0.0`),
/// except that every NaN equals every other NaN.
pub open spec fn float_bits_equal(a: u64, b: u64) -> bool {
    if float_is_nan(a) || float_is_nan(b) {
        float_is_nan(a) && float_is_nan(b)
    } else if float_is_zero(a) {
        float_is_zero(b)
    } else {
        a == b
    }
}

/// YAML equality of numbers: integers by value, floats by `float_bits_equal`;
/// an integer never equals a float.
pub open spec fn number_equal(x: YamlNumber, y: YamlNumber) -> bool {
    match (x, y) {
        (YamlNumber::PosInt(a), YamlNumber::PosInt(b)) => a == b,
        (YamlNumber::NegInt(a), YamlNumber::NegInt(b)) => a == b,
        (YamlNumber::FloatBits(a), YamlNumber::FloatBits(b)) => float_bits_equal(a, b),
        _ => false,
    }
}

/// YAML equality, the key equality of mappings: scalars and tags compare by
/// value (numbers by `number_equal`), sequences item by item, and mappings
/// as sets of entries (same size, and every entry of each side has an equal
/// entry on the other side), whatever their order.
pub open spec fn yaml_equal(a: YamlModel, b: YamlModel) -> bool
    decreases a, 0int, 0int,
{
    match a {
        YamlModel::Null => b is Null,
        YamlModel::Bool(x) => match b {
            YamlModel::Bool(y) => x == y,
            _ => false,
        },
        YamlModel::Number(x) => match b {
            YamlModel::Number(y) => number_equal(x, y),
            _ => false,
        },
        YamlModel::Str(x) => match b {
            YamlModel::Str(y) => x == y,
            _ => false,
        },
        YamlModel::List(xs) => match b {
            YamlModel::List(ys) => xs.len() == ys.len() && items_equal(xs, ys, xs.len() as int),
            _ => false,
        },
        YamlModel::Dict(xs) => match b {
            YamlModel::Dict(ys) => xs.len() == ys.len() && entries_matched(xs, ys, xs.len() as int)
                && entries_covered(xs, ys, ys.len() as int),
            _ => false,
        },
        YamlModel::Tagged(t, x) => match b {
            YamlModel::Tagged(u, y) => t == u && yaml_equal(*x, *y),
            _ => false,
        },
    }
}

/// The first `n` items of `xs` and of `ys` are pairwise equal.
pub open spec fn items_equal(xs: Seq<YamlModel>, ys: Seq<YamlModel>, n: int) -> bool
    decreases xs, 0int, n,
{
    if n <= 0 {
        true
    } else if n > xs.len() || n > ys.len() {
        false
    } else {
        items_equal(xs, ys, n - 1) && yaml_equal(xs[n - 1], ys[n - 1])
    }
}

/// Each of the first `n` entries of `xs` equals some entry of `ys`.
pub open spec fn entries_matched(
    xs: Seq<(YamlModel, YamlModel)>,
    ys: Seq<(YamlModel, YamlModel)>,
    n: int,
) -> bool
    decreases xs, 1int, n,
{
    if n <= 0 {
        true
    } else if n > xs.len() {
        false
    } else {
        entries_matched(xs, ys, n - 1) && entry_found(xs[n - 1], ys, ys.len() as int)
    }
}

/// Some one of the first `m` entries of `ys` equals `x`.
pub open spec fn entry_found(x: (YamlModel, YamlModel), ys: Seq<(YamlModel, YamlModel)>, m: int) -> bool
    decreases x, 0int, m,
{
    if m <= 0 || m > ys.len() {
        false
    } else {
        entry_found(x, ys, m - 1) || (yaml_equal(x.0, ys[m - 1].0) && yaml_equal(x.1, ys[m - 1].1))
    }
}

/// Each of the first `n` entries of `ys` equals some entry of `xs`.
pub open spec fn entries_covered(
    xs: Seq<(YamlModel, YamlModel)>,
    ys: Seq<(YamlModel, YamlModel)>,
    n: int,
) -> bool
    decreases xs, 2int, n,
{
    if n <= 0 {
        true
    } else if n > ys.len() {
        false
    } else {
        entries_covered(xs, ys, n - 1) && entry_among(xs, ys[n - 1], xs.len() as int)
    }
}

/// Some one of the first `m` entries of `xs` equals `y`.
pub open spec fn entry_among(xs: Seq<(YamlModel, YamlModel)>, y: (YamlModel, YamlModel), m: int) -> bool
    decreases xs, 1int, m,
{
    if m <= 0 || m > xs.len() {
        false
    } else {
        entry_among(xs, y, m - 1) || (yaml_equal(xs[m - 1].0, y.0) && yaml_equal(xs[m - 1].1, y.1))
    }
}

/// Two mapping entries are equal: equal keys and equal values.
pub open spec fn entry_equal(x: (YamlModel, YamlModel), y: (YamlModel, YamlModel)) -> bool {
    yaml_equal(x.0, y.0) && yaml_equal(x.1, y.1)
}

/// Some entry of `ys` equals `x`.
pub open spec fn has_equal_entry(x: (YamlModel, YamlModel), ys: Seq<(YamlModel, YamlModel)>) -> bool {
    exists|j: int| 0 <= j < ys.len() && #[trigger] entry_equal(x, ys[j])
}

/// Some entry of `xs` equals `y`.
pub open spec fn equal_entry_in(xs: Seq<(YamlModel, YamlModel)>, y: (YamlModel, YamlModel)) -> bool {
    exists|i: int| 0 <= i < xs.len() && #[trigger] entry_equal(xs[i], y)
}

proof fn lemma_items_equal(xs: Seq<YamlModel>, ys: Seq<YamlModel>, n: int)
    requires
        0 <= n <= xs.len(),
        n <= ys.len(),
    ensures
        items_equal(xs, ys, n) == forall|i: int| 0 <= i < n ==> #[trigger] yaml_equal(xs[i], ys[i]),
    decreases n,
{
    if n > 0 {
        lemma_items_equal(xs, ys, n - 1);
        assert(items_equal(xs, ys, n) == (items_equal(xs, ys, n - 1) && yaml_equal(xs[n - 1], ys[n - 1])));
        if items_equal(xs, ys, n) {
            assert forall|i: int| 0 <= i < n implies #[trigger] yaml_equal(xs[i], ys[i]) by {
                if i < n - 1 {
                    assert(yaml_equal(xs[i], ys[i]));
                }
            }
        }
    }
}

proof fn lemma_entry_found(x: (YamlModel, YamlModel), ys: Seq<(YamlModel, YamlModel)>, m: int)
    requires
        0 <= m <= ys.len(),
    ensures
        entry_found(x, ys, m) == exists|j: int| 0 <= j < m && #[trigger] entry_equal(x, ys[j]),
    decreases m,
{
    if m > 0 {
        lemma_entry_found(x, ys, m - 1);
        if entry_found(x, ys, m) && !entry_found(x, ys, m - 1) {
            assert(entry_equal(x, ys[m - 1]));
        }
    }
}

proof fn lemma_entry_among(xs: Seq<(YamlModel, YamlModel)>, y: (YamlModel, YamlModel), m: int)
    requires
        0 <= m <= xs.len(),
    ensures
        entry_among(xs, y, m) == exists|i: int| 0 <= i < m && #[trigger] entry_equal(xs[i], y),
    decreases m,
{
    if m > 0 {
        lemma_entry_among(xs, y, m - 1);
        if entry_among(xs, y, m) && !entry_among(xs, y, m - 1) {
            assert(entry_equal(xs[m - 1], y));
        }
    }
}

proof fn lemma_entries_matched(xs: Seq<(YamlModel, YamlModel)>, ys: Seq<(YamlModel, YamlModel)>, n: int)
    requires
        0 <= n <= xs.len(),
    ensures
        entries_matched(xs, ys, n) == forall|i: int| 0 <= i < n ==> #[trigger] has_equal_entry(xs[i], ys),
    decreases n,
{
    if n > 0 {
        lemma_entries_matched(xs, ys, n - 1);
        lemma_entry_found(xs[n - 1], ys, ys.len() as int);
        if has_equal_entry(xs[n - 1], ys) {
            let j = choose|j: int| 0 <= j < ys.len() && #[trigger] entry_equal(xs[n - 1], ys[j]);
            assert(entry_equal(xs[n - 1], ys[j]));
        }
        if entry_found(xs[n - 1], ys, ys.len() as int) {
            let j = choose|j: int| 0 <= j < ys.len() && #[trigger] entry_equal(xs[n - 1], ys[j]);
            assert(entry_equal(xs[n - 1], ys[j]));
        }
        assert(entries_matched(xs, ys, n) == (entries_matched(xs, ys, n - 1) && entry_found(
            xs[n - 1],
            ys,
            ys.len() as int,
        )));
        if entries_matched(xs, ys, n) {
            assert forall|i: int| 0 <= i < n implies #[trigger] has_equal_entry(xs[i], ys) by {
                if i < n - 1 {
                    assert(has_equal_entry(xs[i], ys));
                }
            }
        }
    }
}

proof fn lemma_entries_covered(xs: Seq<(YamlModel, YamlModel)>, ys: Seq<(YamlModel, YamlModel)>, n: int)
    requires
        0 <= n <= ys.len(),
    ensures
        entries_covered(xs, ys, n) == forall|j: int| 0 <= j < n ==> #[trigger] equal_entry_in(xs, ys[j]),
    decreases n,
{
    if n > 0 {
        lemma_entries_covered(xs, ys, n - 1);
        lemma_entry_among(xs, ys[n - 1], xs.len() as int);
        if equal_entry_in(xs, ys[n - 1]) {
            let i = choose|i: int| 0 <= i < xs.len() && #[trigger] entry_equal(xs[i], ys[n - 1]);
            assert(entry_equal(xs[i], ys[n - 1]));
        }
        if entry_among(xs, ys[n - 1], xs.len() as int) {
            let i = choose|i: int| 0 <= i < xs.len() && #[trigger] entry_equal(xs[i], ys[n - 1]);
            assert(entry_equal(xs[i], ys[n - 1]));
        }
        assert(entries_covered(xs, ys, n) == (entries_covered(xs, ys, n - 1) && entry_among(
            xs,
            ys[n - 1],
            xs.len() as int,
        )));
        if entries_covered(xs, ys, n) {
            assert forall|j: int| 0 <= j < n implies #[trigger] equal_entry_in(xs, ys[j]) by {
                if j < n - 1 {
                    assert(equal_entry_in(xs, ys[j]));
                }
            }
        }
    }
}

/// Sequences are equal when they have the same length and equal items.
proof fn lemma_list_equal(xs: Seq<YamlModel>, ys: Seq<YamlModel>)
    ensures
        yaml_equal(YamlModel::List(xs), YamlModel::List(ys)) == (xs.len() == ys.len() && forall|i: int|
            0 <= i < xs.len() ==> #[trigger] yaml_equal(xs[i], ys[i])),
{
    if xs.len() == ys.len() {
        lemma_items_equal(xs, ys, xs.len() as int);
    }
}

/// Mappings are equal when they have the same size and each entry of either
/// side equals some entry of the other.
proof fn lemma_dict_equal(xs: Seq<(YamlModel, YamlModel)>, ys: Seq<(YamlModel, YamlModel)>)
    ensures
        yaml_equal(YamlModel::Dict(xs), YamlModel::Dict(ys)) == (xs.len() == ys.len() && (forall|
            i: int,
        | 0 <= i < xs.len() ==> #[trigger] has_equal_entry(xs[i], ys)) && (forall|j: int|
            0 <= j < ys.len() ==> #[trigger] equal_entry_in(xs, ys[j]))),
{
    lemma_entries_matched(xs, ys, xs.len() as int);
    lemma_entries_covered(xs, ys, ys.len() as int);
}

/// YAML equality is reflexive.
pub proof fn lemma_yaml_equal_reflexive(a: YamlModel)
    ensures
        yaml_equal(a, a),
    decreases a,
{
    match a {
        YamlModel::List(xs) => {
            assert forall|i: int| 0 <= i < xs.len() implies #[trigger] yaml_equal(xs[i], xs[i]) by {
                lemma_yaml_equal_reflexive(xs[i]);
            }
            lemma_list_equal(xs, xs);
        },
        YamlModel::Dict(xs) => {
            assert forall|i: int| 0 <= i < xs.len() implies #[trigger] entry_equal(xs[i], xs[i]) by {
                lemma_yaml_equal_reflexive(xs[i].0);
                lemma_yaml_equal_reflexive(xs[i].1);
            }
            assert forall|i: int| 0 <= i < xs.len() implies #[trigger] has_equal_entry(xs[i], xs) by {
                assert(entry_equal(xs[i], xs[i]));
            }
            assert forall|i: int| 0 <= i < xs.len() implies #[trigger] equal_entry_in(xs, xs[i]) by {
                assert(entry_equal(xs[i], xs[i]));
            }
            lemma_dict_equal(xs, xs);
        },
        YamlModel::Tagged(t, x) => {
            lemma_yaml_equal_reflexive(*x);
        },
        _ => {},
    }
}

/// YAML equality is symmetric.
pub proof fn lemma_yaml_equal_symmetric(a: YamlModel, b: YamlModel)
    requires
        yaml_equal(a, b),
    ensures
        yaml_equal(b, a),
    decreases a,
{
    match a {
        YamlModel::List(xs) => {
            let ys = b->List_0;
            lemma_list_equal(xs, ys);
            lemma_list_equal(ys, xs);
            assert forall|i: int| 0 <= i < ys.len() implies #[trigger] yaml_equal(ys[i], xs[i]) by {
                assert(yaml_equal(xs[i], ys[i]));
                lemma_yaml_equal_symmetric(xs[i], ys[i]);
            }
        },
        YamlModel::Dict(xs) => {
            let ys = b->Dict_0;
            lemma_dict_equal(xs, ys);
            lemma_dict_equal(ys, xs);
            assert forall|j: int| 0 <= j < ys.len() implies #[trigger] has_equal_entry(ys[j], xs) by {
                assert(equal_entry_in(xs, ys[j]));
                let i = choose|i: int| 0 <= i < xs.len() && #[trigger] entry_equal(xs[i], ys[j]);
                lemma_yaml_equal_symmetric(xs[i].0, ys[j].0);
                lemma_yaml_equal_symmetric(xs[i].1, ys[j].1);
                assert(entry_equal(ys[j], xs[i]));
            }
            assert forall|i: int| 0 <= i < xs.len() implies #[trigger] equal_entry_in(ys, xs[i]) by {
                assert(has_equal_entry(xs[i], ys));
                let j = choose|j: int| 0 <= j < ys.len() && #[trigger] entry_equal(xs[i], ys[j]);
                lemma_yaml_equal_symmetric(xs[i].0, ys[j].0);
                lemma_yaml_equal_symmetric(xs[i].1, ys[j].1);
                assert(entry_equal(ys[j], xs[i]));
            }
        },
        YamlModel::Tagged(t, x) => {
            lemma_yaml_equal_symmetric(*x, *(b->Tagged_1));
        },
        _ => {},
    }
}

/// YAML equality is transitive.
pub proof fn lemma_yaml_equal_transitive(a: YamlModel, b: YamlModel, c: YamlModel)
    requires
        yaml_equal(a, b),
        yaml_equal(b, c),
    ensures
        yaml_equal(a, c),
    decreases a,
{
    match a {
        YamlModel::List(xs) => {
            let ys = b->List_0;
            let zs = c->List_0;
            lemma_list_equal(xs, ys);
            lemma_list_equal(ys, zs);
            lemma_list_equal(xs, zs);
            assert forall|i: int| 0 <= i < xs.len() implies #[trigger] yaml_equal(xs[i], zs[i]) by {
                assert(yaml_equal(xs[i], ys[i]));
                assert(yaml_equal(ys[i], zs[i]));
                lemma_yaml_equal_transitive(xs[i], ys[i], zs[i]);
            }
        },
        YamlModel::Dict(xs) => {
            let ys = b->Dict_0;
            let zs = c->Dict_0;
            lemma_dict_equal(xs, ys);
            lemma_dict_equal(ys, zs);
            lemma_dict_equal(xs, zs);
            assert forall|i: int| 0 <= i < xs.len() implies #[trigger] has_equal_entry(xs[i], zs) by {
                assert(has_equal_entry(xs[i], ys));
                let j = choose|j: int| 0 <= j < ys.len() && #[trigger] entry_equal(xs[i], ys[j]);
                assert(has_equal_entry(ys[j], zs));
                let l = choose|l: int| 0 <= l < zs.len() && #[trigger] entry_equal(ys[j], zs[l]);
                lemma_yaml_equal_transitive(xs[i].0, ys[j].0, zs[l].0);
                lemma_yaml_equal_transitive(xs[i].1, ys[j].1, zs[l].1);
                assert(entry_equal(xs[i], zs[l]));
            }
            assert forall|l: int| 0 <= l < zs.len() implies #[trigger] equal_entry_in(xs, zs[l]) by {
                assert(equal_entry_in(ys, zs[l]));
                let j = choose|j: int| 0 <= j < ys.len() && #[trigger] entry_equal(ys[j], zs[l]);
                assert(equal_entry_in(xs, ys[j]));
                let i = choose|i: int| 0 <= i < xs.len() && #[trigger] entry_equal(xs[i], ys[j]);
                lemma_yaml_equal_transitive(xs[i].0, ys[j].0, zs[l].0);
                lemma_yaml_equal_transitive(xs[i].1, ys[j].1, zs[l].1);
                assert(entry_equal(xs[i], zs[l]));
            }
        },
        YamlModel::Tagged(t, x) => {
            lemma_yaml_equal_transitive(*x, *(b->Tagged_1), *(c->Tagged_1));
        },
        _ => {},
    }
}

/// YAML equality is an equivalence relation (reflexive, symmetric and
/// transitive), so it partitions keys into classes of equal keys.
pub proof fn lemma_yaml_equal_equivalence()
    ensures
        forall|a: YamlModel| #[trigger] yaml_equal(a, a),
        forall|a: YamlModel, b: YamlModel| #[trigger] yaml_equal(a, b) ==> yaml_equal(b, a),
        forall|a: YamlModel, b: YamlModel, c: YamlModel|
            #![trigger yaml_equal(a, b), yaml_equal(b, c)]
            yaml_equal(a, b) && yaml_equal(b, c) ==> yaml_equal(a, c),
{
    assert forall|a: YamlModel| #[trigger] yaml_equal(a, a) by {
        lemma_yaml_equal_reflexive(a);
    }
    assert forall|a: YamlModel, b: YamlModel| #[trigger] yaml_equal(a, b) implies yaml_equal(b, a) by {
        lemma_yaml_equal_symmetric(a, b);
    }
    assert forall|a: YamlModel, b: YamlModel, c: YamlModel|
        #![trigger yaml_equal(a, b), yaml_equal(b, c)]
        yaml_equal(a, b) && yaml_equal(b, c) implies yaml_equal(a, c) by {
        lemma_yaml_equal_transitive(a, b, c);
    }
}

fn float_bits_eq(a: u64, b: u64) -> (r: bool)
    ensures
        r == float_bits_equal(a, b),
{
    let a_nan = (a & 0x7ff0_0000_0000_0000u64) == 0x7ff0_0000_0000_0000u64 && (a
        & 0x000f_ffff_ffff_ffffu64) != 0;
    let b_nan = (b & 0x7ff0_0000_0000_0000u64) == 0x7ff0_0000_0000_0000u64 && (b
        & 0x000f_ffff_ffff_ffffu64) != 0;
    if a_nan || b_nan {
        a_nan && b_nan
    } else if (a & 0x7fff_ffff_ffff_ffffu64) == 0 {
        (b & 0x7fff_ffff_ffff_ffffu64) == 0
    } else {
        a == b
    }
}

fn number_eq(x: YamlNumber, y: YamlNumber) -> (r: bool)
    ensures
        r == number_equal(x, y),
{
    match (x, y) {
        (YamlNumber::PosInt(a), YamlNumber::PosInt(b)) => a == b,
        (YamlNumber::NegInt(a), YamlNumber::NegInt(b)) => a == b,
        (YamlNumber::FloatBits(a), YamlNumber::FloatBits(b)) => float_bits_eq(a, b),
        _ => false,
    }
}

/// Whether two YAML values are equal as YAML (`yaml_equal`): the equality
/// by which a mapping recognises a key it already holds.
#[verifier::loop_isolation(false)]
pub fn yaml_eq(a: &YamlValue, b: &YamlValue) -> (r: bool)
    ensures
        r == yaml_equal(a@, b@),
    decreases a,
{
    match (a, b) {
        (YamlValue::Null, YamlValue::Null) => true,
        (YamlValue::Bool(x), YamlValue::Bool(y)) => *x == *y,
        (YamlValue::Number(x), YamlValue::Number(y)) => number_eq(*x, *y),
        (YamlValue::Str(x), YamlValue::Str(y)) => *x == *y,
        (YamlValue::Sequence(xs), YamlValue::Sequence(ys)) => {
            proof {
                lemma_models_of(xs@);
                lemma_models_of(ys@);
                lemma_list_equal(models_of(xs@), models_of(ys@));
            }
            if xs.len() != ys.len() {
                return false;
            }
            let mut i: usize = 0;
            while i < xs.len()
                invariant
                    i <= xs.len(),
                    xs.len() == ys.len(),
                    forall|k: int|
                        0 <= k < i ==> #[trigger] yaml_equal(models_of(xs@)[k], models_of(ys@)[k]),
                decreases xs.len() - i,
            {
                proof {
                    vstd::std_specs::vec::axiom_vec_index_decreases(*xs, i as int);
                    assert(decreases_to!(*a => xs@[i as int]));
                }
                if !yaml_eq(&xs[i], &ys[i]) {
                    proof {
                        assert(!yaml_equal(models_of(xs@)[i as int], models_of(ys@)[i as int]));
                    }
                    return false;
                }
                i = i + 1;
            }
            true
        },
        (YamlValue::Mapping(xs), YamlValue::Mapping(ys)) => {
            let ghost xm = entries_of(xs@);
            let ghost ym = entries_of(ys@);
            proof {
                lemma_entries_of(xs@);
                lemma_entries_of(ys@);
                lemma_dict_equal(xm, ym);
            }
            if xs.len() != ys.len() {
                return false;
            }
            let mut i: usize = 0;
            while i < xs.len()
                invariant
                    i <= xs.len(),
                    xs.len() == ys.len(),
                    forall|k: int| 0 <= k < i ==> #[trigger] has_equal_entry(xm[k], ym),
                decreases xs.len() - i,
            {
                proof {
                    vstd::std_specs::vec::axiom_vec_index_decreases(*xs, i as int);
                    assert(decreases_to!(*a => xs@[i as int].0));
                    assert(decreases_to!(*a => xs@[i as int].1));
                }
                let mut j: usize = 0;
                let mut found = false;
                while j < ys.len() && !found
                    invariant
                        i < xs.len(),
                        j <= ys.len(),
                        found ==> has_equal_entry(xm[i as int], ym),
                        !found ==> forall|l: int| 0 <= l < j ==> !#[trigger] entry_equal(xm[i as int], ym[l]),
                    decreases ys.len() - j,
                {
                    if yaml_eq(&xs[i].0, &ys[j].0) && yaml_eq(&xs[i].1, &ys[j].1) {
                        proof {
                            assert(entry_equal(xm[i as int], ym[j as int]));
                        }
                        found = true;
                    }
                    j = j + 1;
                }
                if !found {
                    proof {
                        assert(!has_equal_entry(xm[i as int], ym));
                    }
                    return false;
                }
                i = i + 1;
            }
            let mut j: usize = 0;
            while j < ys.len()
                invariant
                    j <= ys.len(),
                    xs.len() == ys.len(),
                    forall|k: int| 0 <= k < xs.len() ==> #[trigger] has_equal_entry(xm[k], ym),
                    forall|l: int| 0 <= l < j ==> #[trigger] equal_entry_in(xm, ym[l]),
                decreases ys.len() - j,
            {
                let mut i: usize = 0;
                let mut found = false;
                while i < xs.len() && !found
                    invariant
                        j < ys.len(),
                        i <= xs.len(),
                        found ==> equal_entry_in(xm, ym[j as int]),
                        !found ==> forall|l: int| 0 <= l < i ==> !#[trigger] entry_equal(xm[l], ym[j as int]),
                    decreases xs.len() - i,
                {
                    proof {
                        vstd::std_specs::vec::axiom_vec_index_decreases(*xs, i as int);
                        assert(decreases_to!(*a => xs@[i as int].0));
                        assert(decreases_to!(*a => xs@[i as int].1));
                    }
                    if yaml_eq(&xs[i].0, &ys[j].0) && yaml_eq(&xs[i].1, &ys[j].1) {
                        proof {
                            assert(entry_equal(xm[i as int], ym[j as int]));
                        }
                        found = true;
                    }
                    i = i + 1;
                }
                if !found {
                    proof {
                        assert(!equal_entry_in(xm, ym[j as int]));
                    }
                    return false;
                }
                j = j + 1;
            }
            true
        },
        (YamlValue::Tagged(t, x), YamlValue::Tagged(u, y)) => {
            if *t != *u {
                return false;
            }
            let inner: &YamlValue = x;
            let other: &YamlValue = y;
            yaml_eq(inner, other)
        },
        _ => false,
    }
}

/// Index of the first entry of `m` whose key equals `k` (`yaml_equal`).
pub open spec fn find_key(m: Seq<(YamlModel, YamlModel)>, k: YamlModel) -> Option<int>
    decreases m.len(),
{
    if m.len() == 0 {
        None
    } else if yaml_equal(k, m[0].0) {
        Some(0)
    } else {
        match find_key(m.subrange(1, m.len() as int), k) {
            Some(p) => Some(p + 1),
            None => None,
        }
    }
}

/// `Mapping::insert`: an existing key keeps its place and takes the new
/// value; a new key goes at the end.
pub open spec fn insert_entry(m: Seq<(YamlModel, YamlModel)>, k: YamlModel, v: YamlModel) -> Seq<
    (YamlModel, YamlModel),
> {
    match find_key(m, k) {
        Some(p) => m.update(p, (m[p].0, v)),
        None => m.push((k, v)),
    }
}

/// The mapping that inserting the first `n` entries of `bm` into an empty
/// mapping builds.
pub open spec fn insert_all(bm: Seq<(YamlModel, YamlModel)>, n: int) -> Seq<(YamlModel, YamlModel)>
    decreases n,
{
    if n <= 0 {
        seq![]
    } else {
        insert_entry(insert_all(bm, n - 1), bm[n - 1].0, bm[n - 1].1)
    }
}

/// `Mapping::remove` (a swap-remove): the last entry takes the place of entry `p`.
pub open spec fn swap_removed(m: Seq<(YamlModel, YamlModel)>, p: int) -> Seq<(YamlModel, YamlModel)> {
    m.update(p, m.last()).drop_last()
}

/// The deep merge of `base` and `over`: mappings merge per key, sequences
/// append, anything else is replaced by `over`.
pub open spec fn merge_model(base: YamlModel, over: YamlModel) -> YamlModel
    decreases over, 0int,
{
    match over {
        YamlModel::Dict(om) => match base {
            YamlModel::Dict(bm) => YamlModel::Dict(
                merge_entries(insert_all(bm, bm.len() as int), om, om.len() as int),
            ),
            _ => over,
        },
        YamlModel::List(os) => match base {
            YamlModel::List(bs) => YamlModel::List(bs + os),
            _ => over,
        },
        _ => over,
    }
}

/// The mapping after folding the first `n` entries of `om` into `start`: a
/// key already present is taken out and re-added at the end with the merged
/// value; a new key is added at the end.
pub open spec fn merge_entries(
    start: Seq<(YamlModel, YamlModel)>,
    om: Seq<(YamlModel, YamlModel)>,
    n: int,
) -> Seq<(YamlModel, YamlModel)>
    decreases om, n,
{
    if n <= 0 || n > om.len() {
        start
    } else {
        let acc = merge_entries(start, om, n - 1);
        match find_key(acc, om[n - 1].0) {
            Some(p) => swap_removed(acc, p).push((om[n - 1].0, merge_model(acc[p].1, om[n - 1].1))),
            None => acc.push((om[n - 1].0, om[n - 1].1)),
        }
    }
}

pub proof fn lemma_find_key(m: Seq<(YamlModel, YamlModel)>, k: YamlModel)
    ensures
        match find_key(m, k) {
            Some(p) => 0 <= p < m.len() && yaml_equal(k, m[p].0) && forall|j: int|
                0 <= j < p ==> !#[trigger] yaml_equal(k, m[j].0),
            None => forall|j: int| 0 <= j < m.len() ==> !#[trigger] yaml_equal(k, m[j].0),
        },
    decreases m.len(),
{
    if m.len() > 0 {
        let t = m.subrange(1, m.len() as int);
        lemma_find_key(t, k);
        assert forall|j: int| 1 <= j < m.len() implies m[j] == t[j - 1] by {}
    }
}

fn find_key_in(m: &Vec<(YamlValue, YamlValue)>, k: &YamlValue) -> (r: Option<usize>)
    ensures
        match r {
            Some(p) => p < m.len() && find_key(entries_of(m@), k@) == Some(p as int),
            None => find_key(entries_of(m@), k@) is None,
        },
{
    proof {
        lemma_entries_of(m@);
        lemma_find_key(entries_of(m@), k@);
    }
    let mut i: usize = 0;
    while i < m.len()
        invariant
            i <= m.len(),
            entries_of(m@).len() == m.len(),
            forall|j: int| 0 <= j < m.len() ==> #[trigger] entries_of(m@)[j] == (model_of(m@[j].0), model_of(m@[j].1)),
            forall|j: int| 0 <= j < i ==> !#[trigger] yaml_equal(k@, entries_of(m@)[j].0),
            match find_key(entries_of(m@), k@) {
                Some(p) => 0 <= p < m.len() && yaml_equal(k@, entries_of(m@)[p].0) && forall|j: int|
                    0 <= j < p ==> !#[trigger] yaml_equal(k@, entries_of(m@)[j].0),
                None => forall|j: int| 0 <= j < m.len() ==> !#[trigger] yaml_equal(k@, entries_of(m@)[j].0),
            },
        decreases m.len() - i,
    {
        if yaml_eq(k, &m[i].0) {
            proof {
                assert(yaml_equal(k@, entries_of(m@)[i as int].0));
            }
            return Some(i);
        }
        i = i + 1;
    }
    None
}

fn insert_value(m: &mut Vec<(YamlValue, YamlValue)>, k: YamlValue, v: YamlValue)
    ensures
        entries_of(final(m)@) == insert_entry(entries_of(old(m)@), k@, v@),
{
    proof {
        lemma_entries_of(m@);
    }
    match find_key_in(m, &k) {
        Some(p) => {
            let old_entry = m.remove(p);
            m.insert(p, (old_entry.0, v));
            proof {
                lemma_entries_of(m@);
                assert(entries_of(m@) =~= entries_of(old(m)@).update(
                    p as int,
                    (entries_of(old(m)@)[p as int].0, v@),
                ));
            }
        },
        None => {
            m.push((k, v));
            proof {
                lemma_entries_of(m@);
                assert(entries_of(m@) =~= entries_of(old(m)@).push((k@, v@)));
            }
        },
    }
}

/// Deep-merges two YAML values, right-biased: mappings merge per key
/// recursively, sequences append (left then right), and any other shape is
/// replaced by `over`.
#[verifier::loop_isolation(false)]
pub fn merge_values(base: YamlValue, over: YamlValue) -> (r: YamlValue)
    ensures
        r@ == merge_model(base@, over@),
    decreases over,
{
    let ghost over0 = over;
    let ghost base0 = base;
    match over {
        YamlValue::Mapping(om) => match base {
            YamlValue::Mapping(bm) => {
                let ghost bm0 = bm@;
                let ghost om0 = om@;
                let ghost omv = om;
                proof {
                    lemma_entries_of(bm0);
                    lemma_entries_of(om0);
                }
                let mut result: Vec<(YamlValue, YamlValue)> = Vec::new();
                let mut rest = bm;
                let nb = rest.len();
                let mut i: usize = 0;
                proof {
                    assert(bm0.skip(0) =~= bm0);
                    assert(entries_of(result@) =~= insert_all(entries_of(bm0), 0));
                }
                while i < nb
                    invariant
                        i <= nb,
                        nb == bm0.len(),
                        rest@ == bm0.skip(i as int),
                        entries_of(result@) == insert_all(entries_of(bm0), i as int),
                    decreases nb - i,
                {
                    let (k, v) = rest.remove(0);
                    proof {
                        assert(rest@ =~= bm0.skip(i + 1));
                        assert(entries_of(bm0)[i as int] == (model_of(k), model_of(v)));
                    }
                    insert_value(&mut result, k, v);
                    i = i + 1;
                }
                let ghost start = entries_of(result@);
                let mut others = om;
                let no = others.len();
                let mut j: usize = 0;
                proof {
                    assert(om0.skip(0) =~= om0);
                }
                while j < no
                    invariant
                        j <= no,
                        no == om0.len(),
                        others@ == om0.skip(j as int),
                        start == insert_all(entries_of(bm0), bm0.len() as int),
                        entries_of(result@) == merge_entries(start, entries_of(om0), j as int),
                    decreases no - j,
                {
                    let (k, ov) = others.remove(0);
                    proof {
                        assert(others@ =~= om0.skip(j + 1));
                        assert(entries_of(om0)[j as int] == (model_of(k), model_of(ov)));
                        lemma_entries_of(result@);
                    }
                    match find_key_in(&result, &k) {
                        Some(p) => {
                            let ghost before = result@;
                            let (_, bv) = result.swap_remove(p);
                            proof {
                                vstd::std_specs::vec::axiom_vec_index_decreases(omv, j as int);
                                assert(decreases_to!(over0 => ov));
                            }
                            let merged = merge_values(bv, ov);
                            result.push((k, merged));
                            proof {
                                lemma_entries_of(before);
                                lemma_entries_of(result@);
                                assert(entries_of(result@) =~= swap_removed(entries_of(before), p as int).push(
                                    (model_of(k), merge_model(entries_of(before)[p as int].1, model_of(ov))),
                                ));
                            }
                        },
                        None => {
                            let ghost before = result@;
                            result.push((k, ov));
                            proof {
                                lemma_entries_of(before);
                                lemma_entries_of(result@);
                                assert(entries_of(result@) =~= entries_of(before).push((model_of(k), model_of(ov))));
                            }
                        },
                    }
                    j = j + 1;
                }
                YamlValue::Mapping(result)
            },
            _ => YamlValue::Mapping(om),
        },
        YamlValue::Sequence(os) => match base {
            YamlValue::Sequence(bs) => {
                let ghost b0 = bs@;
                let ghost o0 = os@;
                let mut b = bs;
                let mut o = os;
                b.append(&mut o);
                proof {
                    lemma_models_of(b0);
                    lemma_models_of(o0);
                    lemma_models_of(b@);
                    assert(models_of(b@) =~= models_of(b0) + models_of(o0));
                }
                YamlValue::Sequence(b)
            },
            _ => YamlValue::Sequence(os),
        },
        other => other,
    }
}

/// The left-to-right merge of documents (`None` for no document).
pub open spec fn merge_all(docs: Seq<YamlModel>) -> Option<YamlModel>
    decreases docs.len(),
{
    if docs.len() == 0 {
        None
    } else if docs.len() == 1 {
        Some(docs[0])
    } else {
        match merge_all(docs.drop_last()) {
            Some(acc) => Some(merge_model(acc, docs.last())),
            None => None,
        }
    }
}

/// Merges parsed documents left to right (later documents win; lists
/// append). Returns `None` when there is no document.
pub fn merge_documents(docs: Vec<YamlValue>) -> (r: Option<YamlValue>)
    ensures
        match r {
            Some(v) => merge_all(models_of(docs@)) == Some(v@),
            None => merge_all(models_of(docs@)) is None,
        },
{
    let ghost d0 = docs@;
    proof {
        lemma_models_of(d0);
    }
    let mut rest = docs;
    let n = rest.len();
    let mut merged: Option<YamlValue> = None;
    let mut i: usize = 0;
    proof {
        assert(d0.skip(0) =~= d0);
        assert(models_of(d0).take(0) =~= Seq::<YamlModel>::empty());
    }
    while i < n
        invariant
            i <= n,
            n == d0.len(),
            models_of(d0).len() == n,
            forall|k: int| 0 <= k < n ==> #[trigger] models_of(d0)[k] == model_of(d0[k]),
            rest@ == d0.skip(i as int),
            match merged {
                Some(v) => merge_all(models_of(d0).take(i as int)) == Some(v@),
                None => merge_all(models_of(d0).take(i as int)) is None,
            },
            i > 0 ==> merged is Some,
        decreases n - i,
    {
        let doc = rest.remove(0);
        proof {
            assert(rest@ =~= d0.skip(i + 1));
            assert(models_of(d0).take(i + 1).drop_last() =~= models_of(d0).take(i as int));
            assert(models_of(d0).take(i + 1).last() == model_of(doc));
        }
        merged = match merged {
            None => {
                proof {
                    assert(models_of(d0).take(i + 1).len() == 1);
                }
                Some(doc)
            },
            Some(acc) => Some(merge_values(acc, doc)),
        };
        i = i + 1;
    }
    proof {
        assert(models_of(d0).take(n as int) =~= models_of(d0));
    }
    merged
}
// ---- laws -----------------------------------------------------------------
/// No two keys are equal (`yaml_equal`).
pub open spec fn unique_keys(m: Seq<(YamlModel, YamlModel)>) -> bool {
    forall|i: int, j: int|
        0 <= i < m.len() && 0 <= j < m.len() && i != j ==> !#[trigger] yaml_equal(m[i].0, m[j].0)
}

/// A mapping value has no two equal keys (anything else has no keys).
pub open spec fn top_keys_unique(v: YamlModel) -> bool {
    match v {
        YamlModel::Dict(m) => unique_keys(m),
        _ => true,
    }
}

/// The value stored under `k` (the first entry whose key equals `k`).
pub open spec fn value_at(m: Seq<(YamlModel, YamlModel)>, k: YamlModel) -> Option<YamlModel> {
    match find_key(m, k) {
        Some(p) => Some(m[p].1),
        None => None,
    }
}

/// The per-key outcome of merging mapping `bm` with mapping `om`.
pub open spec fn merged_value_at(
    bm: Seq<(YamlModel, YamlModel)>,
    om: Seq<(YamlModel, YamlModel)>,
    k: YamlModel,
) -> Option<YamlModel> {
    match value_at(om, k) {
        Some(ov) => match value_at(bm, k) {
            Some(bv) => Some(merge_model(bv, ov)),
            None => Some(ov),
        },
        None => value_at(bm, k),
    }
}

/// Equal keys find the same entry.
proof fn lemma_find_key_congruent(m: Seq<(YamlModel, YamlModel)>, k1: YamlModel, k2: YamlModel)
    requires
        yaml_equal(k1, k2),
    ensures
        find_key(m, k1) == find_key(m, k2),
    decreases m.len(),
{
    if m.len() > 0 {
        lemma_yaml_equal_equivalence();
        assert(yaml_equal(k1, m[0].0) == yaml_equal(k2, m[0].0)) by {
            assert(yaml_equal(k2, k1));
        }
        lemma_find_key_congruent(m.subrange(1, m.len() as int), k1, k2);
    }
}

proof fn lemma_value_at_unique(m: Seq<(YamlModel, YamlModel)>, k: YamlModel)
    requires
        unique_keys(m),
    ensures
        forall|j: int|
            0 <= j < m.len() && #[trigger] yaml_equal(k, m[j].0) ==> value_at(m, k) == Some(m[j].1),
        (forall|j: int| 0 <= j < m.len() ==> !#[trigger] yaml_equal(k, m[j].0)) ==> value_at(m, k) is None,
{
    lemma_find_key(m, k);
    lemma_yaml_equal_equivalence();
    assert forall|j: int|
        0 <= j < m.len() && #[trigger] yaml_equal(k, m[j].0) implies value_at(m, k) == Some(m[j].1) by {
        let p = find_key(m, k)->Some_0;
        if p != j {
            assert(yaml_equal(m[p].0, k));
            assert(yaml_equal(m[p].0, m[j].0));
        }
    }
}

proof fn lemma_insert_all_unique(bm: Seq<(YamlModel, YamlModel)>, n: int)
    requires
        unique_keys(bm),
        0 <= n <= bm.len(),
    ensures
        insert_all(bm, n) == bm.take(n),
    decreases n,
{
    if n > 0 {
        lemma_insert_all_unique(bm, n - 1);
        let t = bm.take(n - 1);
        lemma_find_key(t, bm[n - 1].0);
        if let Some(p) = find_key(t, bm[n - 1].0) {
            assert(t[p] == bm[p]);
            assert(yaml_equal(bm[n - 1].0, bm[p].0));
        }
        assert(t.push((bm[n - 1].0, bm[n - 1].1)) =~= bm.take(n));
    }
}

/// Entries of `swap_removed(m, p)` are those of `m` except entry `p`.
proof fn lemma_swap_removed(m: Seq<(YamlModel, YamlModel)>, p: int)
    requires
        0 <= p < m.len(),
    ensures
        swap_removed(m, p).len() == m.len() - 1,
        forall|j: int|
            0 <= j < m.len() - 1 ==> #[trigger] swap_removed(m, p)[j] == if j == p {
                m[m.len() - 1]
            } else {
                m[j]
            },
{
}

/// The over-mapping prefix grows by one entry `(kk, ov)` whose key is new.
proof fn lemma_prefix_step(om: Seq<(YamlModel, YamlModel)>, n: int)
    requires
        unique_keys(om),
        0 < n <= om.len(),
    ensures
        unique_keys(om.take(n - 1)),
        unique_keys(om.take(n)),
        value_at(om.take(n - 1), om[n - 1].0) is None,
        value_at(om.take(n), om[n - 1].0) == Some(om[n - 1].1),
        forall|k: YamlModel|
            !yaml_equal(k, om[n - 1].0) ==> #[trigger] value_at(om.take(n), k) == value_at(
                om.take(n - 1),
                k,
            ),
{
    let kk = om[n - 1].0;
    let prev = om.take(n - 1);
    let cur = om.take(n);
    assert(unique_keys(prev)) by {
        assert forall|i: int, j: int|
            0 <= i < prev.len() && 0 <= j < prev.len() && i != j implies !#[trigger] yaml_equal(
            prev[i].0,
            prev[j].0,
        ) by {
            assert(prev[i] == om[i] && prev[j] == om[j]);
        }
    }
    assert(unique_keys(cur)) by {
        assert forall|i: int, j: int|
            0 <= i < cur.len() && 0 <= j < cur.len() && i != j implies !#[trigger] yaml_equal(
            cur[i].0,
            cur[j].0,
        ) by {
            assert(cur[i] == om[i] && cur[j] == om[j]);
        }
    }
    lemma_value_at_unique(prev, kk);
    lemma_value_at_unique(cur, kk);
    assert forall|j: int| 0 <= j < prev.len() implies !#[trigger] yaml_equal(kk, prev[j].0) by {
        assert(prev[j] == om[j]);
    }
    lemma_yaml_equal_reflexive(kk);
    assert(cur[n - 1] == om[n - 1]);
    assert(yaml_equal(kk, cur[n - 1].0));
    assert forall|k: YamlModel| !yaml_equal(k, kk) implies #[trigger] value_at(cur, k) == value_at(
        prev,
        k,
    ) by {
        lemma_value_at_unique(prev, k);
        lemma_value_at_unique(cur, k);
        if exists|j: int| 0 <= j < prev.len() && #[trigger] yaml_equal(k, prev[j].0) {
            let j = choose|j: int| 0 <= j < prev.len() && #[trigger] yaml_equal(k, prev[j].0);
            assert(cur[j] == prev[j]);
            assert(yaml_equal(k, cur[j].0));
        } else {
            assert forall|j: int| 0 <= j < cur.len() implies !#[trigger] yaml_equal(k, cur[j].0) by {
                if j < prev.len() {
                    assert(cur[j] == prev[j]);
                    assert(!yaml_equal(k, prev[j].0));
                }
            }
        }
    }
}

proof fn lemma_merge_entries_step(
    bm: Seq<(YamlModel, YamlModel)>,
    om: Seq<(YamlModel, YamlModel)>,
    n: int,
)
    requires
        unique_keys(bm),
        unique_keys(om),
        0 <= n <= om.len(),
    ensures
        unique_keys(merge_entries(bm, om, n)),
        forall|k: YamlModel| #[trigger] value_at(merge_entries(bm, om, n), k) == merged_value_at(bm, om.take(n), k),
    decreases n,
{
    if n == 0 {
        assert forall|k: YamlModel| #[trigger] value_at(merge_entries(bm, om, n), k) == merged_value_at(bm, om.take(n), k) by {
            lemma_find_key(om.take(0), k);
        }
    } else {
        lemma_merge_entries_step(bm, om, n - 1);
        lemma_prefix_step(om, n);
        lemma_yaml_equal_equivalence();
        let acc = merge_entries(bm, om, n - 1);
        let kk = om[n - 1].0;
        let ov = om[n - 1].1;
        let prev = om.take(n - 1);
        let cur = om.take(n);
        let res = merge_entries(bm, om, n);
        lemma_find_key(acc, kk);
        lemma_value_at_unique(acc, kk);
        assert(yaml_equal(kk, kk));
        // what `kk` maps to before this step comes from `bm` alone
        assert(value_at(acc, kk) == value_at(bm, kk));
        match find_key(acc, kk) {
            Some(p) => {
                let sr = swap_removed(acc, p);
                lemma_swap_removed(acc, p);
                let merged = merge_model(acc[p].1, ov);
                assert(res == sr.push((kk, merged)));
                assert(value_at(acc, kk) == Some(acc[p].1));
                assert(yaml_equal(acc[p].0, kk));
                // a key other than entry `p`'s is not equal to `kk`
                assert forall|j: int| 0 <= j < acc.len() && j != p implies !#[trigger] yaml_equal(
                    kk,
                    acc[j].0,
                ) by {
                    if yaml_equal(kk, acc[j].0) {
                        assert(yaml_equal(acc[p].0, acc[j].0));
                    }
                }
                assert forall|i: int, j: int|
                    0 <= i < res.len() && 0 <= j < res.len() && i != j implies !#[trigger] yaml_equal(
                    res[i].0,
                    res[j].0,
                ) by {
                    let last = res.len() - 1;
                    if i < last && j < last {
                        let ii = if i == p { acc.len() - 1 } else { i };
                        let jj = if j == p { acc.len() - 1 } else { j };
                        assert(sr[i] == acc[ii]);
                        assert(sr[j] == acc[jj]);
                    } else if i == last && j < last {
                        let jj = if j == p { acc.len() - 1 } else { j };
                        assert(sr[j] == acc[jj]);
                        assert(!yaml_equal(kk, acc[jj].0));
                    } else if j == last && i < last {
                        let ii = if i == p { acc.len() - 1 } else { i };
                        assert(sr[i] == acc[ii]);
                        assert(!yaml_equal(kk, acc[ii].0));
                        if yaml_equal(acc[ii].0, kk) {
                            assert(yaml_equal(kk, acc[ii].0));
                        }
                    }
                }
                assert(res[res.len() - 1] == (kk, merged));
                assert(res[res.len() - 1].0 == kk);
                assert(yaml_equal(kk, res[res.len() - 1].0));
                assert(unique_keys(res));
                lemma_value_at_unique(res, kk);
                assert(value_at(res, kk) == Some(merged));
                assert forall|k: YamlModel| #[trigger] value_at(res, k) == merged_value_at(bm, cur, k) by {
                    if yaml_equal(k, kk) {
                        lemma_find_key_congruent(res, k, kk);
                        lemma_find_key_congruent(bm, k, kk);
                        lemma_find_key_congruent(cur, k, kk);
                    } else {
                        lemma_value_at_unique(res, k);
                        lemma_value_at_unique(acc, k);
                        assert(value_at(cur, k) == value_at(prev, k));
                        assert(value_at(acc, k) == merged_value_at(bm, prev, k));
                        if exists|j: int| 0 <= j < acc.len() && #[trigger] yaml_equal(k, acc[j].0) {
                            let j = choose|j: int| 0 <= j < acc.len() && #[trigger] yaml_equal(k, acc[j].0);
                            if j == p {
                                assert(yaml_equal(k, kk));
                            }
                            let jj = if j == acc.len() - 1 { p } else { j };
                            assert(res[jj] == acc[j]);
                            assert(yaml_equal(k, res[jj].0));
                        } else {
                            assert forall|j: int| 0 <= j < res.len() implies !#[trigger] yaml_equal(k, res[j].0) by {
                                if j < res.len() - 1 {
                                    let ii = if j == p { acc.len() - 1 } else { j };
                                    assert(sr[j] == acc[ii]);
                                    assert(!yaml_equal(k, acc[ii].0));
                                }
                            }
                        }
                    }
                }
            },
            None => {
                assert(res == acc.push((kk, ov)));
                assert forall|i: int, j: int|
                    0 <= i < res.len() && 0 <= j < res.len() && i != j implies !#[trigger] yaml_equal(
                    res[i].0,
                    res[j].0,
                ) by {
                    if i < acc.len() && j < acc.len() {
                        assert(res[i] == acc[i] && res[j] == acc[j]);
                    } else if i < acc.len() {
                        assert(res[i] == acc[i]);
                        assert(!yaml_equal(kk, acc[i].0));
                        if yaml_equal(acc[i].0, kk) {
                            assert(yaml_equal(kk, acc[i].0));
                        }
                    } else if j < acc.len() {
                        assert(res[j] == acc[j]);
                        assert(!yaml_equal(kk, acc[j].0));
                    }
                }
                assert(value_at(acc, kk) is None);
                assert(res[res.len() - 1] == (kk, ov));
                assert(res[res.len() - 1].0 == kk);
                assert(yaml_equal(kk, res[res.len() - 1].0));
                assert(unique_keys(res));
                lemma_value_at_unique(res, kk);
                assert(value_at(res, kk) == Some(ov));
                assert forall|k: YamlModel| #[trigger] value_at(res, k) == merged_value_at(bm, cur, k) by {
                    if yaml_equal(k, kk) {
                        lemma_find_key_congruent(res, k, kk);
                        lemma_find_key_congruent(bm, k, kk);
                        lemma_find_key_congruent(cur, k, kk);
                    } else {
                        lemma_value_at_unique(res, k);
                        lemma_value_at_unique(acc, k);
                        assert(value_at(cur, k) == value_at(prev, k));
                        assert(value_at(acc, k) == merged_value_at(bm, prev, k));
                        if exists|j: int| 0 <= j < acc.len() && #[trigger] yaml_equal(k, acc[j].0) {
                            let j = choose|j: int| 0 <= j < acc.len() && #[trigger] yaml_equal(k, acc[j].0);
                            assert(res[j] == acc[j]);
                            assert(yaml_equal(k, res[j].0));
                        } else {
                            assert forall|j: int| 0 <= j < res.len() implies !#[trigger] yaml_equal(k, res[j].0) by {
                                if j < acc.len() {
                                    assert(res[j] == acc[j]);
                                    assert(!yaml_equal(k, acc[j].0));
                                }
                            }
                        }
                    }
                }
            },
        }
    }
}

/// Merge law for mappings (no two equal keys on either side): no two keys
/// of the result are equal, a key only in `base` keeps its value, a key
/// only in `over` takes the over value, and a key in both gets the deep
/// merge of the two values. Keys are matched by `yaml_equal`, so `0.0` and
/// `-0.0`, or two mappings listing the same entries in another order, are
/// one key.
pub proof fn lemma_mappings_merge_per_key(
    bm: Seq<(YamlModel, YamlModel)>,
    om: Seq<(YamlModel, YamlModel)>,
)
    requires
        unique_keys(bm),
        unique_keys(om),
    ensures
        merge_model(YamlModel::Dict(bm), YamlModel::Dict(om)) is Dict,
        unique_keys(merge_model(YamlModel::Dict(bm), YamlModel::Dict(om))->Dict_0),
        forall|k: YamlModel|
            #[trigger] value_at(merge_model(YamlModel::Dict(bm), YamlModel::Dict(om))->Dict_0, k)
                == merged_value_at(bm, om, k),
{
    lemma_insert_all_unique(bm, bm.len() as int);
    assert(bm.take(bm.len() as int) =~= bm);
    assert(om.take(om.len() as int) =~= om);
    lemma_merge_entries_step(bm, om, om.len() as int);
}

/// Merge law for sequences: the result is the left items followed by the
/// right items.
pub proof fn lemma_sequences_append(bs: Seq<YamlModel>, os: Seq<YamlModel>)
    ensures
        merge_model(YamlModel::List(bs), YamlModel::List(os)) == YamlModel::List(bs + os),
{
}

/// Merge law for every other shape: the right-hand value wins.
pub proof fn lemma_right_value_wins(base: YamlModel, over: YamlModel)
    requires
        !(base is Dict && over is Dict),
        !(base is List && over is List),
    ensures
        merge_model(base, over) == over,
{
}

/// Document-merge law: no documents merge to nothing; one document merges
/// to itself, unchanged; two documents merge to their deep merge; and each
/// further document is deep-merged over the result of the ones before it
/// (a left fold), so a non-empty list always yields a document.
pub proof fn lemma_documents_merge_left_to_right(docs: Seq<YamlModel>, first: YamlModel, second: YamlModel, next: YamlModel)
    ensures
        merge_all(Seq::<YamlModel>::empty()) is None,
        merge_all(seq![first]) == Some(first),
        merge_all(seq![first, second]) == Some(merge_model(first, second)),
        docs.len() > 0 ==> merge_all(docs) is Some,
        docs.len() > 0 ==> merge_all(docs.push(next)) == Some(merge_model(merge_all(docs)->Some_0, next)),
    decreases docs.len(),
{
    assert(seq![first, second].drop_last() =~= seq![first]);
    if docs.len() > 1 {
        lemma_documents_merge_left_to_right(docs.drop_last(), first, second, docs.last());
    }
    assert(docs.push(next).drop_last() =~= docs);
}

} // verus!
