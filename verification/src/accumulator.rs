//! The layers of a vector tile.
use vstd::prelude::*;
use crate::layer::{pushed, Float, LayerBuf, LayerView, RawFeature, TileLayer};
use crate::text::{
    comes_before, is_before, text_order_is_total, text_order_is_transitive, the_first_difference_decides,
};

verus! {

/// Features for one layer.
#[derive(Debug)]
pub struct LayerContent {
    pub name: String,
    pub features: Vec<RawFeature>,
}

/// Collects the features of a tile by layer.
#[derive(Debug)]
pub struct S57Accumulator {
    layers: Vec<LayerBuf>,
}

/// Layer `i` has the name `k`.
spec fn named(layers: Seq<LayerBuf>, k: Seq<char>, i: int) -> bool {
    0 <= i < layers.len() && layers[i]@.name == k
}

impl View for S57Accumulator {
    type V = Map<Seq<char>, LayerView>;

    /// The layers by their names.
    closed spec fn view(&self) -> Map<Seq<char>, LayerView> {
        Map::new(
            |k: Seq<char>| exists|i: int| named(self.layers@, k, i),
            |k: Seq<char>| self.layers@[choose|i: int| named(self.layers@, k, i)]@,
        )
    }
}

/// A layer without features.
pub open spec fn empty_layer(name: Seq<char>) -> LayerView {
    LayerView { name, columns: Seq::empty(), features: Seq::empty() }
}

/// The layer of a name, an empty one where there is none yet.
pub open spec fn layer_or_empty(layers: Map<Seq<char>, LayerView>, name: Seq<char>) -> LayerView {
    if layers.contains_key(name) {
        layers[name]
    } else {
        empty_layer(name)
    }
}

/// `after` is `before` with the given features added to the layer of a name, one
/// after the other; `steps` are the states of that layer in between.
pub open spec fn layer_filled<T: Fn(Float) -> String>(
    before: LayerView,
    features: Seq<RawFeature>,
    after: LayerView,
    notation: T,
    steps: Seq<LayerView>,
) -> bool {
    &&& steps.len() == features.len() + 1
    &&& steps[0] == before
    &&& steps.last() == after
    &&& forall|i: int|
        0 <= i < features.len() ==> pushed(steps[i], #[trigger] features[i], steps[i + 1], notation)
}

/// `after` is `before` with the content of one layer added.
pub open spec fn content_added<T: Fn(Float) -> String>(
    before: Map<Seq<char>, LayerView>,
    content: LayerContent,
    after: Map<Seq<char>, LayerView>,
    notation: T,
) -> bool {
    exists|layer: LayerView, steps: Seq<LayerView>|
        #[trigger] layer_filled(
            layer_or_empty(before, content.name@),
            content.features@,
            layer,
            notation,
            steps,
        ) && after == before.insert(content.name@, layer)
}

proof fn lemma_filled_name<T: Fn(Float) -> String>(
    before: LayerView,
    features: Seq<RawFeature>,
    after: LayerView,
    notation: T,
    steps: Seq<LayerView>,
    n: int,
)
    requires
        layer_filled(before, features, after, notation, steps),
        0 <= n < steps.len(),
    ensures
        steps[n].name == before.name,
    decreases n,
{
    if n > 0 {
        lemma_filled_name(before, features, after, notation, steps, n - 1);
        assert(pushed(steps[n - 1], features[n - 1], steps[n - 1 + 1], notation));
    }
}

fn fill_layer<T: Fn(Float) -> String>(layer: &mut LayerBuf, features: Vec<RawFeature>, notation: &T)
    requires
        forall|f: Float| call_requires(*notation, (f,)),
    ensures
        exists|steps: Seq<LayerView>| layer_filled(old(layer)@, features@, final(layer)@, *notation, steps),
        final(layer)@.name == old(layer)@.name,
{
    let ghost given = features@;
    let ghost mut steps: Seq<LayerView> = seq![layer@];
    for feature in it: features
        invariant
            it.seq() == given,
            forall|f: Float| call_requires(*notation, (f,)),
            steps.len() == it.index@ + 1,
            steps[0] == old(layer)@,
            steps.last() == layer@,
            forall|i: int|
                0 <= i < it.index@ ==> pushed(steps[i], #[trigger] given[i], steps[i + 1], *notation),
    {
        let ghost n = it.index@ as int;
        let ghost before = layer@;
        layer.push(feature, notation);
        proof {
            let more = steps.push(layer@);
            assert forall|i: int| 0 <= i < n + 1 implies pushed(more[i], #[trigger] given[i], more[i + 1], *notation) by {
                if i < n {
                    assert(pushed(steps[i], given[i], steps[i + 1], *notation));
                }
            }
            steps = more;
        }
    }
    proof {
        assert(layer_filled(old(layer)@, given, layer@, *notation, steps));
        lemma_filled_name(old(layer)@, given, layer@, *notation, steps, steps.len() - 1);
    }
}

impl S57Accumulator {
    /// The layers are in the order of their names, without repetition.
    #[verifier::type_invariant]
    spec fn ordered(self) -> bool {
        forall|i: int, j: int|
            0 <= i < j < self.layers@.len() ==> comes_before(
                (#[trigger] self.layers@[i])@.name,
                (#[trigger] self.layers@[j])@.name,
            )
    }

    proof fn lemma_entry(&self, i: int)
        requires
            self.ordered(),
            0 <= i < self.layers@.len(),
        ensures
            self@.contains_key(self.layers@[i]@.name),
            self@[self.layers@[i]@.name] == self.layers@[i]@,
    {
        let k = self.layers@[i]@.name;
        assert(named(self.layers@, k, i));
        let j = choose|j: int| named(self.layers@, k, j);
        assert(named(self.layers@, k, j));
        text_order_is_total(k, k);
        if i < j {
            assert(comes_before(self.layers@[i]@.name, self.layers@[j]@.name));
        } else if j < i {
            assert(comes_before(self.layers@[j]@.name, self.layers@[i]@.name));
        }
    }

    /// No layers.
    pub fn empty() -> (a: S57Accumulator)
        ensures
            a@ == Map::<Seq<char>, LayerView>::empty(),
    {
        let a: S57Accumulator = S57Accumulator { layers: Vec::new() };
        assert(a@ =~= Map::empty());
        a
    }

    fn with<T: Fn(Float) -> String>(self, content: LayerContent, notation: &T) -> (a: S57Accumulator)
        requires
            forall|f: Float| call_requires(*notation, (f,)),
        ensures
            content_added(self@, content, a@, *notation),
    {
        proof {
            use_type_invariant(&self);
        }
        let ghost before = self;
        let ghost name = content.name@;
        let mut layers: Vec<LayerBuf> = self.layers;
        let mut i: usize = 0;
        while i < layers.len() && is_before(layers[i].name_text(), content.name.as_str())
            invariant
                i <= layers@.len(),
                layers@ == before.layers@,
                name == content.name@,
                forall|k: int| 0 <= k < i ==> comes_before((#[trigger] layers@[k])@.name, name),
            decreases layers@.len() - i,
        {
            i += 1;
        }
        let known: bool = i < layers.len() && !is_before(content.name.as_str(), layers[i].name_text());
        let mut layer: LayerBuf = if known {
            layers.remove(i)
        } else {
            LayerBuf::new(content.name.as_str())
        };
        let ghost start = layer@;
        proof {
            if known {
                text_order_is_total(before.layers@[i as int]@.name, name);
                before.lemma_entry(i as int);
            } else {
                assert(!before@.contains_key(name)) by {
                    if before@.contains_key(name) {
                        let j = choose|j: int| named(before.layers@, name, j);
                        assert(named(before.layers@, name, j));
                        text_order_is_total(name, name);
                        if i < before.layers@.len() {
                            assert(comes_before(name, before.layers@[i as int]@.name));
                            if j > i {
                                assert(comes_before(before.layers@[i as int]@.name, before.layers@[j]@.name));
                                text_order_is_transitive(name, before.layers@[i as int]@.name, name);
                            }
                        }
                    }
                }
            }
            assert(start == layer_or_empty(before@, name));
        }
        let ghost features = content.features@;
        fill_layer(&mut layer, content.features, notation);
        let ghost filled = layer@;
        let ghost rest = layers@;
        layers.insert(i, layer);
        proof {
            assert(known ==> rest == before.layers@.remove(i as int));
            assert forall|a: int, b: int| 0 <= a < b < layers@.len() implies comes_before(
                (#[trigger] layers@[a])@.name,
                (#[trigger] layers@[b])@.name,
            ) by {
                let old_layers = before.layers@;
                // Index in the list before, for a layer other than the one at `i`.
                let pa = if a < i || known { a } else { a - 1 };
                let pb = if b < i || known { b } else { b - 1 };
                if a != i {
                    assert(layers@[a]@ == old_layers[pa]@);
                }
                if b != i {
                    assert(layers@[b]@ == old_layers[pb]@);
                }
                if a != i && b != i {
                    assert(comes_before(old_layers[pa]@.name, old_layers[pb]@.name));
                } else if b == i {
                    assert(comes_before(old_layers[pa]@.name, name));
                } else {
                    if known {
                        assert(comes_before(old_layers[i as int]@.name, old_layers[pb]@.name));
                    } else {
                        assert(comes_before(name, old_layers[i as int]@.name));
                        if pb > i {
                            assert(comes_before(old_layers[i as int]@.name, old_layers[pb]@.name));
                            text_order_is_transitive(name, old_layers[i as int]@.name, old_layers[pb]@.name);
                        }
                    }
                }
            }
        }
        let a: S57Accumulator = S57Accumulator { layers };
        proof {
            let want = before@.insert(name, filled);
            assert forall|k: Seq<char>| a@.contains_key(k) == want.contains_key(k) by {
                if a@.contains_key(k) {
                    let j = choose|j: int| named(a.layers@, k, j);
                    assert(named(a.layers@, k, j));
                    if j != i {
                        let p = if j < i || known { j } else { j - 1 };
                        assert(named(before.layers@, k, p));
                    }
                }
                if want.contains_key(k) {
                    if k == name {
                        assert(named(a.layers@, k, i as int));
                    } else {
                        let j = choose|j: int| named(before.layers@, k, j);
                        assert(named(before.layers@, k, j));
                        let p = if j < i || known { j } else { j + 1 };
                        assert(named(a.layers@, k, p));
                    }
                }
            }
            assert forall|k: Seq<char>| a@.contains_key(k) implies a@[k] == want[k] by {
                let j = choose|j: int| named(a.layers@, k, j);
                assert(named(a.layers@, k, j));
                a.lemma_entry(j);
                if k == name {
                    assert(named(a.layers@, k, i as int));
                    a.lemma_entry(i as int);
                } else {
                    let p = if j < i || known { j } else { j - 1 };
                    assert(named(before.layers@, k, p));
                    before.lemma_entry(p);
                }
            }
            assert(a@ =~= want);
            let steps = choose|steps: Seq<LayerView>| layer_filled(start, features, filled, *notation, steps);
            assert(layer_filled(layer_or_empty(before@, name), features, filled, *notation, steps));
        }
        a
    }

    /// Adds the content that one cell has for a tile. `notation` writes floating
    /// point numbers for columns of texts.
    pub fn push<T: Fn(Float) -> String>(&mut self, content: Vec<LayerContent>, notation: &T)
        requires
            forall|f: Float| call_requires(*notation, (f,)),
        ensures
            exists|states: Seq<Map<Seq<char>, LayerView>>|
                all_added(old(self)@, content@, final(self)@, *notation, states),
    {
        let ghost given = content@;
        let ghost mut states: Seq<Map<Seq<char>, LayerView>> = seq![self@];
        let mut acc: S57Accumulator = S57Accumulator::empty();
        std::mem::swap(&mut acc, self);
        for layer in it: content
            invariant
                it.seq() == given,
                forall|f: Float| call_requires(*notation, (f,)),
                states.len() == it.index@ + 1,
                states[0] == old(self)@,
                states.last() == acc@,
                forall|i: int|
                    0 <= i < it.index@ ==> content_added(states[i], #[trigger] given[i], states[i + 1], *notation),
        {
            let ghost n = it.index@ as int;
            acc = acc.with(layer, notation);
            proof {
                let more = states.push(acc@);
                assert forall|i: int| 0 <= i < n + 1 implies content_added(
                    more[i],
                    #[trigger] given[i],
                    more[i + 1],
                    *notation,
                ) by {
                    if i < n {
                        assert(content_added(states[i], given[i], states[i + 1], *notation));
                    }
                }
                states = more;
            }
        }
        *self = acc;
        assert(all_added(old(self)@, given, self@, *notation, states));
    }

    /// The layers that have features, in the order of their names.
    pub fn finish(self) -> (out: Vec<TileLayer>)
        ensures
            is_sorted(out@),
            forall|i: int|
                0 <= i < out@.len() ==> self@.contains_key((#[trigger] out@[i])@.name) && self@[out@[i]@.name]
                    == out@[i]@ && out@[i]@.features.len() > 0,
            forall|k: Seq<char>| #[trigger]
                self@.contains_key(k) && self@[k].features.len() > 0 ==> exists|i: int|
                    0 <= i < out@.len() && (#[trigger] out@[i])@.name == k,
    {
        proof {
            use_type_invariant(&self);
        }
        let ghost before = self;
        let mut out: Vec<TileLayer> = Vec::new();
        let ghost mut done: int = 0;
        for layer in it: self.layers
            invariant
                it.seq() == before.layers@,
                done == it.index@,
                before.ordered(),
                is_sorted(out@),
                forall|i: int|
                    0 <= i < out@.len() ==> before@.contains_key((#[trigger] out@[i])@.name)
                        && before@[out@[i]@.name] == out@[i]@ && out@[i]@.features.len() > 0,
                forall|i: int|
                    #![trigger out@[i]]
                    0 <= i < out@.len() ==> exists|j: int|
                        0 <= j < done && (#[trigger] before.layers@[j])@.name == out@[i]@.name,
                forall|j: int|
                    0 <= j < done && (#[trigger] before.layers@[j])@.features.len() > 0 ==> exists|i: int|
                        0 <= i < out@.len() && (#[trigger] out@[i])@.name == before.layers@[j]@.name,
        {
            let ghost n = done;
            let ghost seen = layer@;
            let ghost earlier = out@;
            assert(before.layers@[n]@ == seen);
            proof {
                before.lemma_entry(n);
            }
            if layer.feature_count() > 0 {
                let l: TileLayer = layer.finish();
                out.push(l);
                proof {
                    assert forall|a: int, b: int| 0 <= a < b < out@.len() implies comes_before(
                        (#[trigger] out@[a])@.name,
                        (#[trigger] out@[b])@.name,
                    ) by {
                        if b < earlier.len() {
                            assert(comes_before(earlier[a]@.name, earlier[b]@.name));
                        } else {
                            assert(out@[a] == earlier[a]);
                            let j = choose|j: int| 0 <= j < n && (#[trigger] before.layers@[j])@.name == earlier[a]@.name;
                            assert(comes_before(before.layers@[j]@.name, before.layers@[n]@.name));
                        }
                    }
                    assert forall|i: int|
                        #![trigger out@[i]]
                        0 <= i < out@.len() implies exists|j: int|
                        0 <= j < n + 1 && (#[trigger] before.layers@[j])@.name == out@[i]@.name by {
                        if i < earlier.len() {
                            assert(out@[i] == earlier[i]);
                            let j = choose|j: int| 0 <= j < n && (#[trigger] before.layers@[j])@.name == earlier[i]@.name;
                            assert(before.layers@[j]@.name == out@[i]@.name);
                        } else {
                            assert(before.layers@[n]@.name == out@[i]@.name);
                        }
                    }
                    assert forall|j: int|
                        0 <= j < n + 1 && (#[trigger] before.layers@[j])@.features.len() > 0 implies exists|i: int|
                        0 <= i < out@.len() && (#[trigger] out@[i])@.name == before.layers@[j]@.name by {
                        if j < n {
                            let i = choose|i: int|
                                0 <= i < earlier.len() && (#[trigger] earlier[i])@.name == before.layers@[j]@.name;
                            assert(out@[i] == earlier[i]);
                        } else {
                            assert(out@[earlier.len() as int]@.name == before.layers@[n]@.name);
                        }
                    }
                }
            }
            proof {
                done = done + 1;
            }
        }
        proof {
            assert forall|k: Seq<char>| #[trigger]
                before@.contains_key(k) && before@[k].features.len() > 0 implies exists|i: int|
                0 <= i < out@.len() && (#[trigger] out@[i])@.name == k by {
                let j = choose|j: int| named(before.layers@, k, j);
                assert(named(before.layers@, k, j));
                before.lemma_entry(j);
                assert(before.layers@[j]@.features.len() > 0);
            }
        }
        out
    }
}

/// `after` is `before` with all contents added, one after the other; `states`
/// are the layers in between.
pub open spec fn all_added<T: Fn(Float) -> String>(
    before: Map<Seq<char>, LayerView>,
    content: Seq<LayerContent>,
    after: Map<Seq<char>, LayerView>,
    notation: T,
    states: Seq<Map<Seq<char>, LayerView>>,
) -> bool {
    &&& states.len() == content.len() + 1
    &&& states[0] == before
    &&& states.last() == after
    &&& forall|i: int|
        0 <= i < content.len() ==> content_added(states[i], #[trigger] content[i], states[i + 1], notation)
}

/// The layers are in the order of their names, without repetition.
pub open spec fn is_sorted(layers: Seq<TileLayer>) -> bool {
    forall|i: int, j: int|
        0 <= i < j < layers.len() ==> comes_before((#[trigger] layers[i])@.name, (#[trigger] layers[j])@.name)
}

proof fn lemma_filled_shapes<T: Fn(Float) -> String>(
    before: LayerView,
    features: Seq<RawFeature>,
    after: LayerView,
    notation: T,
    steps: Seq<LayerView>,
    n: int,
)
    requires
        layer_filled(before, features, after, notation, steps),
        0 <= n < steps.len(),
    ensures
        steps[n].features.len() == before.features.len() + n,
        forall|i: int| 0 <= i < before.features.len() ==> (#[trigger] steps[n].features[i]).0 == before.features[i].0,
        forall|i: int|
            0 <= i < n ==> (#[trigger] steps[n].features[before.features.len() + i]).0 == features[i].shape,
    decreases n,
{
    if n > 0 {
        lemma_filled_shapes(before, features, after, notation, steps, n - 1);
        let a = steps[n - 1];
        let b = steps[n];
        assert(pushed(steps[n - 1], features[n - 1], steps[n - 1 + 1], notation));
        assert(b.features.last().0 == features[n - 1].shape);
        assert forall|i: int| 0 <= i < a.features.len() implies (#[trigger] b.features[i]).0 == a.features[i].0 by {
            assert(b.features.drop_last()[i] == b.features[i]);
        }
        assert forall|i: int| 0 <= i < n implies (#[trigger] b.features[before.features.len() + i]).0 == features[i].shape by {
            if i < n - 1 {
                assert(a.features[before.features.len() + i].0 == features[i].shape);
            }
        }
        assert forall|i: int| 0 <= i < before.features.len() implies (#[trigger] b.features[i]).0 == before.features[i].0 by {
            assert(a.features[i].0 == before.features[i].0);
        }
    }
}

/// How many features the layer of a name has; none where there is no such layer.
pub open spec fn count_in(layers: Map<Seq<char>, LayerView>, name: Seq<char>) -> int {
    if layers.contains_key(name) {
        layers[name].features.len() as int
    } else {
        0
    }
}

/// Content goes to the layer of its name, behind what the layer has, in its order
/// and whole; every other layer stays as it is.
pub proof fn content_goes_behind_its_layer<T: Fn(Float) -> String>(
    before: Map<Seq<char>, LayerView>,
    content: LayerContent,
    after: Map<Seq<char>, LayerView>,
    notation: T,
    other: Seq<char>,
)
    requires
        content_added(before, content, after, notation),
    ensures
        after.contains_key(content.name@),
        other != content.name@ ==> (after.contains_key(other) <==> before.contains_key(other)) && (before.contains_key(
            other,
        ) ==> after[other] == before[other]),
        ({
            let n = count_in(before, content.name@);
            let layer = after[content.name@];
            &&& layer.features.len() == n + content.features@.len()
            &&& forall|i: int| 0 <= i < n ==> (#[trigger] layer.features[i]).0 == before[content.name@].features[i].0
            &&& forall|i: int|
                0 <= i < content.features@.len() ==> (#[trigger] layer.features[n + i]).0 == content.features@[i].shape
        }),
{
    let start = layer_or_empty(before, content.name@);
    let (layer, steps) = choose|layer: LayerView, steps: Seq<LayerView>|
        #[trigger] layer_filled(start, content.features@, layer, notation, steps) && after == before.insert(
            content.name@,
            layer,
        );
    lemma_filled_shapes(start, content.features@, layer, notation, steps, steps.len() - 1);
    let n = count_in(before, content.name@);
    assert(n == start.features.len());
    assert forall|i: int| 0 <= i < content.features@.len() implies (#[trigger] layer.features[n + i]).0
        == content.features@[i].shape by {
        assert(steps[steps.len() - 1].features[start.features.len() + i].0 == content.features@[i].shape);
    }
}

/// Layers come in the order of their names: where two names first differ, the earlier
/// layer has the lesser character, and a name comes before those that it begins.
pub proof fn layers_come_in_the_order_of_their_names(
    layers: Seq<TileLayer>,
    i: int,
    j: int,
    p: Seq<char>,
    a: char,
    x: Seq<char>,
    b: char,
    y: Seq<char>,
)
    requires
        is_sorted(layers),
        0 <= i < layers.len(),
        0 <= j < layers.len(),
        i != j,
        a < b,
    ensures
        layers[i]@.name != layers[j]@.name,
        layers[i]@.name == p + (seq![a] + x) && layers[j]@.name == p + (seq![b] + y) ==> i < j,
        layers[i]@.name == p && layers[j]@.name == p + (seq![b] + y) ==> i < j,
{
    the_first_difference_decides(p, a, x, b, y);
    the_first_difference_decides(p, b, y, a, x);
    text_order_is_total(layers[i]@.name, layers[j]@.name);
    text_order_is_total(layers[j]@.name, layers[i]@.name);
    if i < j {
        assert(comes_before(layers[i]@.name, layers[j]@.name));
    } else {
        assert(comes_before(layers[j]@.name, layers[i]@.name));
    }
}

proof fn lemma_shapes_stay<T: Fn(Float) -> String>(
    content: Seq<LayerContent>,
    notation: T,
    states: Seq<Map<Seq<char>, LayerView>>,
    j: int,
    n: int,
    name: Seq<char>,
)
    requires
        0 <= j <= n < states.len(),
        states.len() == content.len() + 1,
        forall|i: int|
            0 <= i < content.len() ==> content_added(states[i], #[trigger] content[i], states[i + 1], notation),
        states[j].contains_key(name),
    ensures
        states[n].contains_key(name),
        states[j][name].features.len() <= states[n][name].features.len(),
        forall|i: int|
            0 <= i < states[j][name].features.len() ==> (#[trigger] states[n][name].features[i]).0
                == states[j][name].features[i].0,
    decreases n - j,
{
    if j < n {
        lemma_shapes_stay(content, notation, states, j, n - 1, name);
        assert(content_added(states[n - 1], content[n - 1], states[n - 1 + 1], notation));
        content_goes_behind_its_layer(states[n - 1], content[n - 1], states[n], notation, name);
        let before = states[n - 1][name].features;
        let after = states[n][name].features;
        assert forall|i: int| 0 <= i < states[j][name].features.len() implies (#[trigger] after[i]).0
            == states[j][name].features[i].0 by {
            assert(before[i].0 == states[j][name].features[i].0);
        }
    }
}

/// Contents are added one after the other: each feature of each content is in the
/// layer of its name in the end, behind the features of the contents before it.
pub proof fn every_content_is_added<T: Fn(Float) -> String>(
    before: Map<Seq<char>, LayerView>,
    content: Seq<LayerContent>,
    after: Map<Seq<char>, LayerView>,
    notation: T,
    states: Seq<Map<Seq<char>, LayerView>>,
    j: int,
    k: int,
)
    requires
        all_added(before, content, after, notation, states),
        0 <= j < content.len(),
        0 <= k < content[j].features@.len(),
    ensures
        after.contains_key(content[j].name@),
        ({
            let name = content[j].name@;
            let n = count_in(states[j], name);
            &&& n + k < after[name].features.len()
            &&& after[name].features[n + k].0 == content[j].features@[k].shape
        }),
{
    let name = content[j].name@;
    assert(content_added(states[j], content[j], states[j + 1], notation));
    content_goes_behind_its_layer(states[j], content[j], states[j + 1], notation, name);
    lemma_shapes_stay(content, notation, states, j + 1, content.len() as int, name);
    let n = count_in(states[j], name);
    assert(states[j + 1][name].features[n + k].0 == content[j].features@[k].shape);
    assert(after[name].features[n + k].0 == states[j + 1][name].features[n + k].0);
}

} // verus!
