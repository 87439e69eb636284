//! Controller genomes: sub-networks of affine layers whose parameters are
//! stored as 32-bit float patterns, and the operators that recombine them.
use crate::consts::{B_OUTPUT_LEN, BEING_ROW_LEN, SELF_ROW_LEN, SPEECHLET_LEN, THING_ROW_LEN};
use rand::Rng;
use vstd::prelude::*;

verus! {

/// The splice weight and every random draw are counted in these parts: a
/// weight of `WEIGHT_ONE` is 1.0, and draws are uniform in `[0, WEIGHT_ONE)`.
pub const WEIGHT_ONE: u32 = 1_000_000;


/// Relies on rand's `thread_rng().gen_range(0..bound)`: a draw below `bound`.
#[verifier::external_body]
pub(crate) fn random_below(bound: u32) -> (r: u32)
    requires
        bound > 0,
    ensures
        r < bound,
{
    rand::thread_rng().gen_range(0..bound)
}

/// Relies on burn's `LinearConfig::new(inputs, outputs).init`: a freshly
/// initialised layer with a bias, as the bit patterns of its weights
/// (`inputs * outputs`, row-major) and of its bias (`outputs`).
#[verifier::external_body]
fn init_linear(inputs: usize, outputs: usize) -> (r: (Vec<u32>, Vec<u32>))
    requires
        0 < inputs,
        0 < outputs,
        inputs * outputs <= usize::MAX,
    ensures
        r.0.len() == inputs * outputs,
        r.1.len() == outputs,
{
    let device = burn::backend::ndarray::NdArrayDevice::Cpu;
    let lin = burn::nn::LinearConfig::new(inputs, outputs).init::<burn::backend::NdArray>(&device);
    let w = lin.weight.val().into_data().value.into_iter().map(|x| x.to_bits()).collect();
    let b = lin.bias.map(|p| p.val().into_data().value.into_iter().map(|x| x.to_bits()).collect());
    (w, b.unwrap_or_default())
}

/// `n` independent draws, each uniform in `[0, WEIGHT_ONE)`.
pub fn random_draws(n: usize) -> (r: Vec<u32>)
    ensures
        r.len() == n,
        forall|i: int| 0 <= i < n ==> #[trigger] r[i] < WEIGHT_ONE,
{
    let mut r: Vec<u32> = Vec::new();
    let mut i: usize = 0;
    while i < n
        invariant
            i <= n,
            r.len() == i,
            forall|k: int| 0 <= k < i ==> #[trigger] r[k] < WEIGHT_ONE,
        decreases n - i,
    {
        r.push(random_below(WEIGHT_ONE));
        i = i + 1;
    }
    r
}

/// A copy of a vector of plain values.
pub fn copy_vec<T: Copy>(v: &Vec<T>) -> (r: Vec<T>)
    ensures
        r@ == v@,
{
    let mut r: Vec<T> = Vec::new();
    let mut i: usize = 0;
    while i < v.len()
        invariant
            i <= v.len(),
            r@ == v@.take(i as int),
        decreases v.len() - i,
    {
        r.push(v[i]);
        assert(v@.take(i + 1) =~= v@.take(i as int).push(v@[i as int]));
        i = i + 1;
    }
    assert(v@.take(v.len() as int) =~= v@);
    r
}

/// The splice of `a` and `b` under draws `d` and weight `w`: position i keeps
/// `a[i]` where its draw is below `w`, and takes `b[i]` otherwise.
pub open spec fn spliced(a: Seq<u32>, b: Seq<u32>, d: Seq<u32>, w: u32) -> Seq<u32> {
    Seq::new(a.len(), |i: int| if d[i] < w { a[i] } else { b[i] })
}

/// Element-wise splice of two parameter vectors of one length.
pub fn splice_words(a: &Vec<u32>, b: &Vec<u32>, d: &Vec<u32>, w: u32) -> (r: Vec<u32>)
    requires
        a.len() == b.len(),
        a.len() == d.len(),
    ensures
        r@ == spliced(a@, b@, d@, w),
{
    let mut r: Vec<u32> = Vec::new();
    let mut i: usize = 0;
    while i < a.len()
        invariant
            a.len() == b.len(),
            a.len() == d.len(),
            i <= a.len(),
            r.len() == i,
            forall|k: int| 0 <= k < i ==> #[trigger] r[k] == (if d[k] < w { a[k] } else { b[k] }),
        decreases a.len() - i,
    {
        if d[i] < w {
            r.push(a[i]);
        } else {
            r.push(b[i]);
        }
        i = i + 1;
    }
    assert(r@ =~= spliced(a@, b@, d@, w));
    r
}

/// With every draw below `WEIGHT_ONE`, weight one keeps the first vector and
/// weight zero the second; any weight keeps one of the two at each position.
pub proof fn lemma_spliced_bounds(a: Seq<u32>, b: Seq<u32>, d: Seq<u32>, w: u32)
    requires
        a.len() == b.len(),
        a.len() == d.len(),
        forall|i: int| 0 <= i < d.len() ==> #[trigger] d[i] < WEIGHT_ONE,
    ensures
        spliced(a, b, d, w).len() == a.len(),
        w == WEIGHT_ONE ==> spliced(a, b, d, w) == a,
        w == 0 ==> spliced(a, b, d, w) == b,
        forall|i: int|
            0 <= i < a.len() ==> #[trigger] spliced(a, b, d, w)[i] == a[i] || spliced(a, b, d, w)[i] == b[i],
{
    if w == WEIGHT_ONE {
        assert(spliced(a, b, d, w) =~= a);
    }
    if w == 0 {
        assert(spliced(a, b, d, w) =~= b);
    }
}

/// Each position of `r` holds the value of `a` or of `b` at that position.
pub open spec fn picks(r: Seq<u32>, a: Seq<u32>, b: Seq<u32>) -> bool {
    r.len() == a.len() && forall|i: int| 0 <= i < r.len() ==> #[trigger] r[i] == a[i] || r[i] == b[i]
}

/// Nonlinearity applied after an affine layer.
#[derive(Clone, Copy, Debug, PartialEq, Eq, Structural)]
pub enum Activation {
    Relu,
    Tanh,
    Sigmoid,
    Identity,
}

/// An affine layer `x ↦ xW + b`: `weights` holds W (`inputs` × `outputs`,
/// row-major) and `bias` holds b, as 32-bit float patterns.
pub struct Affine {
    pub inputs: usize,
    pub outputs: usize,
    pub weights: Vec<u32>,
    pub bias: Option<Vec<u32>>,
}

impl Affine {
    pub open spec fn wf(&self) -> bool {
        &&& self.weights.len() == self.inputs * self.outputs
        &&& (self.bias matches Some(b) ==> b.len() == self.outputs)
    }

    /// Same widths and the same bias presence.
    pub open spec fn same_shape(&self, o: &Affine) -> bool {
        &&& self.inputs == o.inputs
        &&& self.outputs == o.outputs
        &&& self.weights.len() == o.weights.len()
        &&& self.bias.is_some() == o.bias.is_some()
        &&& (self.bias matches Some(b) ==> b.len() == o.bias.unwrap().len())
    }

    /// Same shape and the same parameters.
    pub open spec fn same_params(&self, o: &Affine) -> bool {
        &&& self.same_shape(o)
        &&& self.weights@ == o.weights@
        &&& (self.bias matches Some(b) ==> b@ == o.bias.unwrap()@)
    }

    /// Same shape as `a`, and each parameter is the one of `a` or of `b` at
    /// its position.
    pub open spec fn drawn_from(&self, a: &Affine, b: &Affine) -> bool {
        &&& self.same_shape(a)
        &&& picks(self.weights@, a.weights@, b.weights@)
        &&& (self.bias matches Some(x) ==> picks(x@, a.bias.unwrap()@, b.bias.unwrap()@))
    }

    /// A freshly initialised layer with a bias.
    pub fn fresh(inputs: usize, outputs: usize) -> (r: Affine)
        requires
            0 < inputs,
            0 < outputs,
            product_fits(inputs, outputs),
        ensures
            r.wf(),
            r.inputs == inputs,
            r.outputs == outputs,
            r.bias.is_some(),
    {
        proof {
            reveal(product_fits);
        }
        let (weights, bias) = init_linear(inputs, outputs);
        Affine { inputs, outputs, weights, bias: Some(bias) }
    }

    /// A copy of the layer.
    pub fn duplicate(&self) -> (r: Affine)
        ensures
            r.same_params(self),
            r.wf() == self.wf(),
    {
        let bias = match &self.bias {
            Some(b) => Some(copy_vec(b)),
            None => None,
        };
        Affine { inputs: self.inputs, outputs: self.outputs, weights: copy_vec(&self.weights), bias }
    }

    /// Splice of two same-shaped layers under the given draws: each weight and
    /// each bias entry keeps this layer's value where its draw is below `w`,
    /// and takes the other's otherwise. The bias is spliced when this layer
    /// has one.
    pub fn splice_with(&self, other: &Affine, w: u32, weight_draws: &Vec<u32>, bias_draws: &Vec<u32>) -> (r: Affine)
        requires
            self.wf(),
            self.same_shape(other),
            weight_draws.len() == self.weights.len(),
            bias_draws.len() == self.outputs,
        ensures
            r.wf(),
            r.same_shape(self),
            r.weights@ == spliced(self.weights@, other.weights@, weight_draws@, w),
            r.bias matches Some(x) ==> x@ == spliced(self.bias.unwrap()@, other.bias.unwrap()@, bias_draws@, w),
    {
        let weights = splice_words(&self.weights, &other.weights, weight_draws, w);
        let bias = match (&self.bias, &other.bias) {
            (Some(a), Some(b)) => Some(splice_words(a, b, bias_draws, w)),
            _ => None,
        };
        Affine { inputs: self.inputs, outputs: self.outputs, weights, bias }
    }

    /// Splice of two same-shaped layers under fresh random draws.
    pub fn splice(&self, other: &Affine, w: u32) -> (r: Affine)
        requires
            self.wf(),
            self.same_shape(other),
            w <= WEIGHT_ONE,
        ensures
            r.wf(),
            r.drawn_from(self, other),
            w == WEIGHT_ONE ==> r.same_params(self),
            w == 0 ==> r.same_params(other),
    {
        let wd = random_draws(self.weights.len());
        let bd = random_draws(self.outputs);
        let r = self.splice_with(other, w, &wd, &bd);
        proof {
            lemma_spliced_bounds(self.weights@, other.weights@, wd@, w);
            if self.bias.is_some() {
                lemma_spliced_bounds(self.bias.unwrap()@, other.bias.unwrap()@, bd@, w);
            }
        }
        r
    }
}

/// A layer of these widths has a weight count that fits in `usize`.
#[verifier::opaque]
pub open spec fn product_fits(a: usize, b: usize) -> bool {
    a * b <= usize::MAX
}

/// A sub-network shape: widths `sizes[0] → … → sizes[n-1]` and one
/// activation per width, of which the first `n-1` follow the layers.
pub open spec fn config_ok(c: (Vec<usize>, Vec<Activation>)) -> bool {
    &&& c.0.len() >= 1
    &&& c.1.len() == c.0.len()
    &&& forall|i: int| 0 <= i < c.0.len() ==> 0 < #[trigger] c.0[i]
    &&& forall|i: int| #![trigger c.0[i]] 0 <= i < c.0.len() - 1 ==> product_fits(c.0[i], c.0[i + 1])
}

/// A feed-forward sub-network: layer `i` maps width `sizes[i]` to
/// `sizes[i+1]` and is followed by `acts[i]`.
pub struct FF {
    pub sizes: Vec<usize>,
    pub acts: Vec<Activation>,
    pub lins: Vec<Affine>,
}

impl FF {
    pub open spec fn wf(&self) -> bool {
        &&& config_ok((self.sizes, self.acts))
        &&& self.lins.len() + 1 == self.sizes.len()
        &&& forall|i: int|
            0 <= i < self.lins.len() ==> (#[trigger] self.lins[i]).wf() && self.lins[i].inputs == self.sizes[i]
                && self.lins[i].outputs == self.sizes[i + 1] && self.lins[i].bias.is_some()
    }

    /// Width of the input rows.
    pub open spec fn in_width(&self) -> int {
        self.sizes@[0] as int
    }

    /// Width of the output rows.
    pub open spec fn out_width(&self) -> int {
        self.sizes@.last() as int
    }

    /// Same widths, activations and per-layer shapes.
    pub open spec fn same_shape(&self, o: &FF) -> bool {
        &&& self.sizes@ == o.sizes@
        &&& self.acts@ == o.acts@
        &&& self.lins.len() == o.lins.len()
        &&& forall|i: int| 0 <= i < self.lins.len() ==> (#[trigger] self.lins[i]).same_shape(&o.lins[i])
    }

    /// Same shape and the same parameters in every layer.
    pub open spec fn same_params(&self, o: &FF) -> bool {
        &&& self.same_shape(o)
        &&& forall|i: int| 0 <= i < self.lins.len() ==> (#[trigger] self.lins[i]).same_params(&o.lins[i])
    }

    /// Same shape as `a`, each parameter taken from `a` or from `b`.
    pub open spec fn drawn_from(&self, a: &FF, b: &FF) -> bool {
        &&& self.same_shape(a)
        &&& forall|i: int| 0 <= i < self.lins.len() ==> (#[trigger] self.lins[i]).drawn_from(&a.lins[i], &b.lins[i])
    }

    /// A freshly initialised sub-network of the given widths and activations.
    pub fn new(layer_sizes: Vec<usize>, activations: Vec<Activation>) -> (r: FF)
        requires
            config_ok((layer_sizes, activations)),
        ensures
            r.wf(),
            r.sizes@ == layer_sizes@,
            r.acts@ == activations@,
    {
        let mut lins: Vec<Affine> = Vec::new();
        let mut i: usize = 0;
        while i + 1 < layer_sizes.len()
            invariant
                config_ok((layer_sizes, activations)),
                i + 1 <= layer_sizes.len(),
                lins.len() == i,
                forall|k: int|
                    0 <= k < i ==> (#[trigger] lins[k]).wf() && lins[k].inputs == layer_sizes[k]
                        && lins[k].outputs == layer_sizes[k + 1] && lins[k].bias.is_some(),
            decreases layer_sizes.len() - i,
        {
            let a = layer_sizes[i];
            let b = layer_sizes[i + 1];
            lins.push(Affine::fresh(a, b));
            i = i + 1;
        }
        FF { sizes: layer_sizes, acts: activations, lins }
    }

    /// The shape of this sub-network, freshly initialised.
    pub fn fresh_like(&self) -> (r: FF)
        requires
            self.wf(),
        ensures
            r.wf(),
            r.sizes@ == self.sizes@,
            r.acts@ == self.acts@,
    {
        FF::new(copy_vec(&self.sizes), copy_vec(&self.acts))
    }

    /// Two well-formed sub-networks with the same widths and activations
    /// have the same shape.
    pub proof fn lemma_same_sizes(a: &FF, b: &FF)
        requires
            a.wf(),
            b.wf(),
            a.sizes@ == b.sizes@,
            a.acts@ == b.acts@,
        ensures
            a.same_shape(b),
    {
        assert forall|i: int| 0 <= i < a.lins.len() implies (#[trigger] a.lins[i]).same_shape(&b.lins[i]) by {
            assert(b.lins[i].wf());
        }
    }

    /// Two layers, each followed by a hyperbolic tangent.
    pub open spec fn is_tanh_pair(&self, inputs: usize, outputs: usize) -> bool {
        &&& self.wf()
        &&& self.sizes@ == seq![inputs, outputs]
        &&& self.acts@ == seq![Activation::Tanh, Activation::Tanh]
    }

    /// A copy of the sub-network.
    pub fn duplicate(&self) -> (r: FF)
        requires
            self.wf(),
        ensures
            r.wf(),
            r.same_params(self),
    {
        let mut lins: Vec<Affine> = Vec::new();
        let mut i: usize = 0;
        while i < self.lins.len()
            invariant
                self.wf(),
                i <= self.lins.len(),
                lins.len() == i,
                forall|k: int|
                    0 <= k < i ==> (#[trigger] lins[k]).wf() && lins[k].same_params(&self.lins[k]),
            decreases self.lins.len() - i,
        {
            lins.push(self.lins[i].duplicate());
            i = i + 1;
        }
        FF { sizes: copy_vec(&self.sizes), acts: copy_vec(&self.acts), lins }
    }
}

/// Splice of two same-shaped sub-networks, layer by layer, each parameter
/// drawn independently: it keeps `ff1`'s value with probability `w` (in parts
/// of `WEIGHT_ONE`) and takes `ff2`'s otherwise. The bias of a layer is
/// spliced when `ff1`'s layer has one.
pub fn splice_ffs(ff1: FF, ff2: FF, w: u32) -> (r: FF)
    requires
        ff1.wf(),
        ff1.same_shape(&ff2),
        w <= WEIGHT_ONE,
    ensures
        r.wf(),
        r.drawn_from(&ff1, &ff2),
        w == WEIGHT_ONE ==> r.same_params(&ff1),
        w == 0 ==> r.same_params(&ff2),
{
    let mut lins: Vec<Affine> = Vec::new();
    let mut i: usize = 0;
    while i < ff1.lins.len()
        invariant
            ff1.wf(),
            ff1.same_shape(&ff2),
            w <= WEIGHT_ONE,
            i <= ff1.lins.len(),
            lins.len() == i,
            forall|k: int|
                0 <= k < i ==> (#[trigger] lins[k]).wf() && lins[k].drawn_from(&ff1.lins[k], &ff2.lins[k])
                    && (w == WEIGHT_ONE ==> lins[k].same_params(&ff1.lins[k]))
                    && (w == 0 ==> lins[k].same_params(&ff2.lins[k])),
        decreases ff1.lins.len() - i,
    {
        assert(ff1.lins[i as int].same_shape(&ff2.lins[i as int]));
        lins.push(ff1.lins[i].splice(&ff2.lins[i], w));
        i = i + 1;
    }
    FF { sizes: ff1.sizes, acts: ff1.acts, lins }
}

/// The controller genome: one sub-network per observation batch (peers,
/// food and obstacles, heard signals), one for the being's own features, and
/// a final one that maps the combined vector to the action.
pub struct SumFxModel {
    pub being_model: FF,
    pub fo_model: FF,
    pub speechlet_model: FF,
    pub self_model: FF,
    pub final_model: FF,
    pub concat_before_final: bool,
    pub intermediate_dim: usize,
}

/// The sensory output widths fit the final sub-network's input: under
/// concatenation they sum to it; under the element-wise mean they are all
/// equal to it.
pub open spec fn widths_fit(b: int, f: int, s: int, o: int, last_in: int, concat: bool) -> bool {
    if concat {
        b + f + s + o == last_in
    } else {
        b == f && b == s && b == o && last_in == b
    }
}

/// Whether sensory output widths fit the final input width under the mode.
pub fn widths_fit_check(b: usize, f: usize, s: usize, o: usize, last_in: usize, concat: bool) -> (r: bool)
    ensures
        r == widths_fit(b as int, f as int, s as int, o as int, last_in as int, concat),
{
    if concat {
        (b as u128) + (f as u128) + (s as u128) + (o as u128) == last_in as u128
    } else {
        b == f && b == s && b == o && last_in == b
    }
}

impl SumFxModel {
    pub open spec fn wf(&self) -> bool {
        &&& self.being_model.wf()
        &&& self.fo_model.wf()
        &&& self.speechlet_model.wf()
        &&& self.self_model.wf()
        &&& self.final_model.wf()
        &&& widths_fit(
            self.being_model.out_width(),
            self.fo_model.out_width(),
            self.speechlet_model.out_width(),
            self.self_model.out_width(),
            self.final_model.in_width(),
            self.concat_before_final,
        )
        &&& self.intermediate_dim == self.final_model.in_width()
    }

    pub open spec fn same_shape(&self, o: &SumFxModel) -> bool {
        &&& self.being_model.same_shape(&o.being_model)
        &&& self.fo_model.same_shape(&o.fo_model)
        &&& self.speechlet_model.same_shape(&o.speechlet_model)
        &&& self.self_model.same_shape(&o.self_model)
        &&& self.final_model.same_shape(&o.final_model)
        &&& self.concat_before_final == o.concat_before_final
        &&& self.intermediate_dim == o.intermediate_dim
    }

    pub open spec fn same_params(&self, o: &SumFxModel) -> bool {
        &&& self.same_shape(o)
        &&& self.being_model.same_params(&o.being_model)
        &&& self.fo_model.same_params(&o.fo_model)
        &&& self.speechlet_model.same_params(&o.speechlet_model)
        &&& self.self_model.same_params(&o.self_model)
        &&& self.final_model.same_params(&o.final_model)
    }

    pub open spec fn drawn_from(&self, a: &SumFxModel, b: &SumFxModel) -> bool {
        &&& self.same_shape(a)
        &&& self.being_model.drawn_from(&a.being_model, &b.being_model)
        &&& self.fo_model.drawn_from(&a.fo_model, &b.fo_model)
        &&& self.speechlet_model.drawn_from(&a.speechlet_model, &b.speechlet_model)
        &&& self.self_model.drawn_from(&a.self_model, &b.self_model)
        &&& self.final_model.drawn_from(&a.final_model, &b.final_model)
    }

    /// A freshly initialised genome of the given sub-network shapes, combined
    /// by concatenation or by element-wise mean.
    pub fn new(
        being_config: (Vec<usize>, Vec<Activation>),
        fo_config: (Vec<usize>, Vec<Activation>),
        speechlet_config: (Vec<usize>, Vec<Activation>),
        self_config: (Vec<usize>, Vec<Activation>),
        final_config: (Vec<usize>, Vec<Activation>),
        concat_before_final: bool,
    ) -> (r: SumFxModel)
        requires
            config_ok(being_config),
            config_ok(fo_config),
            config_ok(speechlet_config),
            config_ok(self_config),
            config_ok(final_config),
            widths_fit(
                being_config.0@.last() as int,
                fo_config.0@.last() as int,
                speechlet_config.0@.last() as int,
                self_config.0@.last() as int,
                final_config.0@[0] as int,
                concat_before_final,
            ),
        ensures
            r.wf(),
            r.concat_before_final == concat_before_final,
            r.being_model.sizes@ == being_config.0@,
            r.fo_model.sizes@ == fo_config.0@,
            r.speechlet_model.sizes@ == speechlet_config.0@,
            r.self_model.sizes@ == self_config.0@,
            r.final_model.sizes@ == final_config.0@,
            r.being_model.acts@ == being_config.1@,
            r.fo_model.acts@ == fo_config.1@,
            r.speechlet_model.acts@ == speechlet_config.1@,
            r.self_model.acts@ == self_config.1@,
            r.final_model.acts@ == final_config.1@,
            r.intermediate_dim == final_config.0@[0],
    {
        let intermediate_dim = final_config.0[0];
        SumFxModel {
            being_model: FF::new(being_config.0, being_config.1),
            fo_model: FF::new(fo_config.0, fo_config.1),
            speechlet_model: FF::new(speechlet_config.0, speechlet_config.1),
            self_model: FF::new(self_config.0, self_config.1),
            final_model: FF::new(final_config.0, final_config.1),
            concat_before_final,
            intermediate_dim,
        }
    }

    /// The standard shape: one tanh layer per sub-network, sensory outputs of
    /// width 8 concatenated into the final layer, which yields the action.
    pub open spec fn is_standard(&self) -> bool {
        &&& self.wf()
        &&& self.being_model.is_tanh_pair(BEING_ROW_LEN, 8)
        &&& self.fo_model.is_tanh_pair(THING_ROW_LEN, 8)
        &&& self.speechlet_model.is_tanh_pair(SPEECHLET_LEN, 8)
        &&& self.self_model.is_tanh_pair(SELF_ROW_LEN, 8)
        &&& self.final_model.is_tanh_pair(32, B_OUTPUT_LEN)
        &&& self.concat_before_final
    }

    /// Two genomes of the standard shape have the same shape.
    pub proof fn lemma_standard_same_shape(a: &SumFxModel, b: &SumFxModel)
        requires
            a.is_standard(),
            b.is_standard(),
        ensures
            a.same_shape(b),
    {
        FF::lemma_same_sizes(&a.being_model, &b.being_model);
        FF::lemma_same_sizes(&a.fo_model, &b.fo_model);
        FF::lemma_same_sizes(&a.speechlet_model, &b.speechlet_model);
        FF::lemma_same_sizes(&a.self_model, &b.self_model);
        FF::lemma_same_sizes(&a.final_model, &b.final_model);
    }

    /// A freshly initialised genome of the standard shape.
    pub fn standard_model() -> (r: SumFxModel)
        ensures
            r.is_standard(),
    {
        let being_config = (vec![BEING_ROW_LEN, 8], vec![Activation::Tanh, Activation::Tanh]);
        let fo_config = (vec![THING_ROW_LEN, 8], vec![Activation::Tanh, Activation::Tanh]);
        let speechlet_config = (vec![SPEECHLET_LEN, 8], vec![Activation::Tanh, Activation::Tanh]);
        let self_config = (vec![SELF_ROW_LEN, 8], vec![Activation::Tanh, Activation::Tanh]);
        let final_config = (vec![32, B_OUTPUT_LEN], vec![Activation::Tanh, Activation::Tanh]);
        let ghost tanh2 = seq![Activation::Tanh, Activation::Tanh];
        proof {
            reveal(product_fits);
            assert(32 * B_OUTPUT_LEN == 384);
            assert(product_fits(32usize, B_OUTPUT_LEN));
            assert(final_config.0@[0] == 32 && final_config.0@[1] == B_OUTPUT_LEN);
        }
        assert(being_config.0@ =~= seq![BEING_ROW_LEN, 8usize] && being_config.1@ =~= tanh2);
        assert(fo_config.0@ =~= seq![THING_ROW_LEN, 8usize] && fo_config.1@ =~= tanh2);
        assert(speechlet_config.0@ =~= seq![SPEECHLET_LEN, 8usize] && speechlet_config.1@ =~= tanh2);
        assert(self_config.0@ =~= seq![SELF_ROW_LEN, 8usize] && self_config.1@ =~= tanh2);
        assert(final_config.0@ =~= seq![32usize, B_OUTPUT_LEN] && final_config.1@ =~= tanh2);
        SumFxModel::new(being_config, fo_config, speechlet_config, self_config, final_config, true)
    }

    /// A copy of the genome.
    pub fn duplicate(&self) -> (r: SumFxModel)
        requires
            self.wf(),
        ensures
            r.wf(),
            r.same_params(self),
    {
        SumFxModel {
            being_model: self.being_model.duplicate(),
            fo_model: self.fo_model.duplicate(),
            speechlet_model: self.speechlet_model.duplicate(),
            self_model: self.self_model.duplicate(),
            final_model: self.final_model.duplicate(),
            concat_before_final: self.concat_before_final,
            intermediate_dim: self.intermediate_dim,
        }
    }

    /// A freshly initialised genome of this genome's shape.
    pub fn fresh_like(&self) -> (r: SumFxModel)
        requires
            self.wf(),
        ensures
            r.wf(),
            r.same_shape(self),
    {
        let r = SumFxModel {
            being_model: self.being_model.fresh_like(),
            fo_model: self.fo_model.fresh_like(),
            speechlet_model: self.speechlet_model.fresh_like(),
            self_model: self.self_model.fresh_like(),
            final_model: self.final_model.fresh_like(),
            concat_before_final: self.concat_before_final,
            intermediate_dim: self.intermediate_dim,
        };
        r
    }

    /// Splice crossover of two same-shaped genomes: every parameter keeps
    /// this genome's value with probability `crossover_weight` (in parts of
    /// `WEIGHT_ONE`) and takes `other`'s otherwise, independently.
    pub fn crossover(self, other: SumFxModel, crossover_weight: u32) -> (r: SumFxModel)
        requires
            self.wf(),
            self.same_shape(&other),
            crossover_weight <= WEIGHT_ONE,
        ensures
            r.wf(),
            r.drawn_from(&self, &other),
            r.same_shape(&other),
            crossover_weight == WEIGHT_ONE ==> r.same_params(&self),
            crossover_weight == 0 ==> r.same_params(&other),
    {
        let w = crossover_weight;
        SumFxModel {
            being_model: splice_ffs(self.being_model, other.being_model, w),
            fo_model: splice_ffs(self.fo_model, other.fo_model, w),
            speechlet_model: splice_ffs(self.speechlet_model, other.speechlet_model, w),
            self_model: splice_ffs(self.self_model, other.self_model, w),
            final_model: splice_ffs(self.final_model, other.final_model, w),
            concat_before_final: self.concat_before_final,
            intermediate_dim: self.intermediate_dim,
        }
    }

    /// Mutation against a given noise genome of the same shape: every
    /// parameter is replaced by the noise's with probability `mutation_rate`
    /// (in parts of `WEIGHT_ONE`), independently.
    pub fn mutate_against(self, noise: SumFxModel, mutation_rate: u32) -> (r: SumFxModel)
        requires
            self.wf(),
            self.same_shape(&noise),
            mutation_rate <= WEIGHT_ONE,
        ensures
            r.wf(),
            r.drawn_from(&self, &noise),
            mutation_rate == 0 ==> r.same_params(&self),
            mutation_rate == WEIGHT_ONE ==> r.same_params(&noise),
    {
        self.crossover(noise, WEIGHT_ONE - mutation_rate)
    }

    /// Mutation: a fresh genome of this shape is drawn, and every parameter is
    /// replaced by the fresh one with probability `mutation_rate` (in parts of
    /// `WEIGHT_ONE`), independently.
    pub fn mutate(self, mutation_rate: u32) -> (r: SumFxModel)
        requires
            self.wf(),
            mutation_rate <= WEIGHT_ONE,
        ensures
            r.wf(),
            r.same_shape(&self),
            mutation_rate == 0 ==> r.same_params(&self),
    {
        let noise = self.fresh_like();
        self.mutate_against(noise, mutation_rate)
    }
}

} // verus!
