//! Neural amplifier models.
//!
//! Reading a model file and building the network are done by the `nam_rs` crate;
//! running the network on samples is the business of an [`Inference`].
use crate::arith::{difference_is, narrow_is, Arith};
use crate::bits::{abs, below, lt, magnitude, negated, HALF, ONE, TWO};
use crate::number::{
    faithful, finite, one, rounds_above, rounds_below, units, units_of_negated, units_of_one,
};
use crate::param::{read, read_is, SharedParam};
use crate::processor::AudioProcessor;
use core::marker::PhantomData;
use vstd::prelude::*;
use vstd::string::*;

verus! {

/// A model file as read by `nam_rs`.
#[verifier::external_type_specification]
#[verifier::external_body]
pub struct ExNamModel(nam_rs::NamModel);

/// A network ready to run, of `nam_rs`.
#[verifier::external_type_specification]
#[verifier::external_body]
pub struct ExModel(nam_rs::Model);

/// What `nam_rs` reports when a file cannot be read or a network not be built.
#[verifier::external_type_specification]
#[verifier::external_body]
pub struct ExNamError(nam_rs::Error);

/// What `nam_rs::NamModel::from_json_str` makes of a text.
pub uninterp spec fn parsed(json: Seq<char>) -> Result<nam_rs::NamModel, nam_rs::Error>;

/// What `nam_rs::NamModel::expected_sample_rate` gives for a model, as a
/// double-precision bit pattern.
pub uninterp spec fn rate_of(model: nam_rs::NamModel) -> u64;

/// What `nam_rs::Model::from_nam` makes of a model.
pub uninterp spec fn built(model: nam_rs::NamModel) -> Result<nam_rs::Model, nam_rs::Error>;

/// The models that a `nam_rs::NamModel` holds within: the one that conditions it, or
/// the parts of a container.
pub uninterp spec fn models_within(model: nam_rs::NamModel) -> Seq<nam_rs::NamModel>;

/// The sizes of each `nam_rs::LayerArrayConfig` of a model, with the kernel sizes and
/// the dilations of its layers.
pub uninterp spec fn arrays_of(model: nam_rs::NamModel) -> Seq<
    (ArraySizes, Seq<usize>, Seq<usize>),
>;

/// The channels and the kernel sizes of the `nam_rs::PostStackHeadConfig` of a model.
pub uninterp spec fn head_of(model: nam_rs::NamModel) -> Option<(usize, Seq<usize>)>;

/// The inputs, hidden units and layers of the `nam_rs::LstmConfig` of a model.
pub uninterp spec fn cell_of(model: nam_rs::NamModel) -> Option<(usize, usize, usize)>;

/// How many weights the file of a `nam_rs::NamModel` gives.
pub uninterp spec fn weights_of(model: nam_rs::NamModel) -> usize;

/// What `nam_rs::Model::from_nam` says of a convolutional model without its weights and
/// without the model that conditions it.
pub uninterp spec fn weighing_of(model: nam_rs::NamModel) -> Weighing;

/// What `nam_rs::Model::reset` leaves of a network.
pub uninterp spec fn reset_of(model: nam_rs::Model) -> nam_rs::Model;

/// `nam_rs::NamModel::from_json_str`: the same text always gives the same model
/// or the same error.
#[verifier::external_body]
fn parse(json: &str) -> (r: Result<nam_rs::NamModel, nam_rs::Error>)
    ensures
        r == parsed(json@),
{
    nam_rs::NamModel::from_json_str(json)
}

/// `nam_rs::NamModel::expected_sample_rate`: depends on the model alone.
#[verifier::external_body]
fn expected_sample_rate(model: &nam_rs::NamModel) -> (r: u64)
    ensures
        r == rate_of(*model),
{
    model.expected_sample_rate().to_bits()
}

/// The fields `condition_dsp` of a `nam_rs::WaveNetConfig` and `submodels` of a
/// `nam_rs::SlimmableConfig`, in their order.
#[verifier::external_body]
fn within<'a>(model: &'a nam_rs::NamModel) -> (r: Vec<&'a nam_rs::NamModel>)
    ensures
        r@.len() == models_within(*model).len(),
        forall|i: int| 0 <= i < r@.len() ==> *(#[trigger] r@[i]) == models_within(*model)[i],
{
    match &model.config {
        nam_rs::ModelConfig::WaveNet(c) => c.condition_dsp.iter().map(|m| &**m).collect(),
        nam_rs::ModelConfig::Lstm(_) => Vec::new(),
        nam_rs::ModelConfig::Slimmable(c) => c.submodels.iter().map(|s| &s.model).collect(),
    }
}

/// The fields of each `nam_rs::LayerArrayConfig` that say how large something is, in
/// their order; none for other models.
#[verifier::external_body]
fn arrays(model: &nam_rs::NamModel) -> (r: Vec<(ArraySizes, Vec<usize>, Vec<usize>)>)
    ensures
        array_views(r@) == arrays_of(*model),
{
    let convert = |a: &nam_rs::LayerArrayConfig| {
        let sizes = ArraySizes {
            input: a.input_size, condition: a.condition_size, channels: a.channels,
            bottleneck: a.bottleneck, head_size: a.head_size, head_kernel: a.head_kernel_size,
            head_active: a.head1x1.active, head_film: a.head1x1_post_film.active,
            head_out: a.head1x1.out_channels,
        };
        (sizes, a.kernel_sizes.clone(), a.dilations.clone())
    };
    match &model.config {
        nam_rs::ModelConfig::WaveNet(c) => c.layers.iter().map(convert).collect(),
        nam_rs::ModelConfig::Lstm(_) | nam_rs::ModelConfig::Slimmable(_) => Vec::new(),
    }
}

/// The fields `channels` and `kernel_sizes` of the `nam_rs::PostStackHeadConfig`; none
/// for models without.
#[verifier::external_body]
fn head(model: &nam_rs::NamModel) -> (r: Option<(usize, Vec<usize>)>)
    ensures
        head_view(r) == head_of(*model),
{
    match &model.config {
        nam_rs::ModelConfig::WaveNet(c) => {
            c.post_stack_head.as_ref().map(|h| (h.channels, h.kernel_sizes.clone()))
        },
        nam_rs::ModelConfig::Lstm(_) | nam_rs::ModelConfig::Slimmable(_) => None,
    }
}

/// The fields of the `nam_rs::LstmConfig`; none for other models.
#[verifier::external_body]
fn cell(model: &nam_rs::NamModel) -> (r: Option<(usize, usize, usize)>)
    ensures
        r == cell_of(*model),
{
    match &model.config {
        nam_rs::ModelConfig::Lstm(c) => Some((c.input_size, c.hidden_size, c.num_layers)),
        nam_rs::ModelConfig::WaveNet(_) | nam_rs::ModelConfig::Slimmable(_) => None,
    }
}

/// The length of the field `weights`.
#[verifier::external_body]
fn weights(model: &nam_rs::NamModel) -> (r: usize)
    ensures
        r == weights_of(*model),
{
    model.weights.len()
}

/// `nam_rs::Model::from_nam` on a convolutional model without its weights and without
/// the model that conditions it. As every model wants at least one weight, the answer is
/// an error, before anything is built, and mostly the number of weights that the sizes
/// amount to. It relies on group counts that are not zero, which those of a model that
/// was read from a text are not. Other models are not asked.
#[verifier::external_body]
fn weigh(model: &nam_rs::NamModel) -> (r: Weighing)
    requires
        comes_from_text(*model),
    ensures
        r == weighing_of(*model),
{
    let nam_rs::ModelConfig::WaveNet(c) = &model.config else {
        return Weighing::Unasked;
    };
    let config = nam_rs::WaveNetConfig { condition_dsp: None, ..c.clone() };
    let config = nam_rs::ModelConfig::WaveNet(config);
    let bare = nam_rs::NamModel { config, weights: Vec::new(), ..model.clone() };
    match nam_rs::Model::from_nam(&bare) {
        Ok(_) => Weighing::Wants(0),
        Err(nam_rs::Error::WeightCountMismatch { expected, .. }) => Weighing::Wants(expected),
        Err(nam_rs::Error::ConfigTooLarge) => Weighing::TooMany,
        Err(_) => Weighing::Refused,
    }
}

/// `nam_rs::Model::from_nam`: the same model always gives the same network or the same
/// error. It panics where a kernel in the head has size zero, where a buffer would
/// exceed the address space, and where the samples that it looks back on are more than
/// can be counted; but it holds the number of weights against the sizes first, and
/// builds the models within before. Memory is taken to suffice. A model that was read
/// from a text has lists of matching lengths and group counts that are not zero, on
/// which it relies too.
#[verifier::external_body]
fn build(model: &nam_rs::NamModel) -> (r: Result<nam_rs::Model, nam_rs::Error>)
    requires
        comes_from_text(*model),
        buildable(*model),
    ensures
        r == built(*model),
{
    nam_rs::Model::from_nam(model)
}

/// `nam_rs::Model::reset`: what is left depends on the network alone.
#[verifier::external_body]
fn reset_model(model: &mut nam_rs::Model)
    ensures
        *final(model) == reset_of(*old(model)),
{
    model.reset();
}

/// What is said of a convolutional model without its weights.
#[derive(Clone, Copy)]
pub enum Weighing {
    /// It is none, and was not asked for.
    Unasked,
    /// It wants this many weights.
    Wants(usize),
    /// It wants more weights than can be counted.
    TooMany,
    /// It is refused for another reason, which may be that it has several outputs.
    Refused,
}

/// What comes of building a network, as far as it can be told beforehand.
#[derive(Clone, Copy)]
pub enum Outlook {
    /// An error.
    Fails,
    /// A network that looks back this far, or an error.
    Reaches(usize),
    /// It must not be tried: some part is too large, or has a kernel of size zero.
    TooLarge,
}

/// The sizes of an array of layers.
#[derive(Clone, Copy)]
pub struct ArraySizes {
    /// Width of the input.
    pub input: usize,
    /// Width of the conditioning.
    pub condition: usize,
    /// Channels between the layers.
    pub channels: usize,
    /// Width within a layer.
    pub bottleneck: usize,
    /// Width of what the array hands out.
    pub head_size: usize,
    /// Kernel size of the convolution that does so.
    pub head_kernel: usize,
    /// Whether the layers have a convolution of their own for that.
    pub head_active: bool,
    /// Whether its result is modulated.
    pub head_film: bool,
    /// Its width, where the file gives one.
    pub head_out: Option<usize>,
}

/// Arrays in the form that contracts speak of.
pub open spec fn array_views(
    arrays: Seq<(ArraySizes, Vec<usize>, Vec<usize>)>,
) -> Seq<(ArraySizes, Seq<usize>, Seq<usize>)> {
    Seq::new(arrays.len(), |i: int| (arrays[i].0, arrays[i].1@, arrays[i].2@))
}

/// A head in the form that contracts speak of.
pub open spec fn head_view(head: Option<(usize, Vec<usize>)>) -> Option<(usize, Seq<usize>)> {
    match head {
        None => None,
        Some((channels, kernels)) => Some((channels, kernels@)),
    }
}

/// Whether buffers of this width lie within the address space: up to four rows for
/// each channel, of 1024 samples of four bytes.
pub open spec fn width_fits(width: usize) -> bool {
    width * 16384 <= isize::MAX
}

/// Whether a list of this length lies within the address space, at up to 8 KiB for
/// each entry.
pub open spec fn count_fits(count: int) -> bool {
    count * 8192 <= isize::MAX
}

/// How far a convolution looks back, if its buffer, that far and 1024 samples more,
/// lies within the address space.
pub open spec fn look_back(inputs: usize, kernel: usize, dilation: usize) -> Option<usize> {
    let reach = (kernel - 1) * dilation;
    if kernel > 0 && reach + 1024 <= isize::MAX && inputs * (reach + 1024) * 4 <= isize::MAX {
        Some(reach as usize)
    } else {
        None
    }
}

/// The sum of two distances, if both are there and it can be counted.
pub open spec fn both(a: Option<usize>, b: Option<usize>) -> Option<usize> {
    match (a, b) {
        (Some(x), Some(y)) => if x + y <= usize::MAX {
            Some((x + y) as usize)
        } else {
            None
        },
        _ => None,
    }
}

/// How far the first `n` layers of an array look back, if they fit.
pub open spec fn layers_look_back(
    channels: usize,
    kernels: Seq<usize>,
    dilations: Seq<usize>,
    n: nat,
) -> Option<usize>
    decreases n,
{
    if n == 0 {
        Some(0)
    } else {
        both(
            layers_look_back(channels, kernels, dilations, (n - 1) as nat),
            look_back(channels, kernels[n - 1], dilations[n - 1]),
        )
    }
}

impl ArraySizes {
    /// The width that the convolution of the layers for the head has, or would have.
    pub open spec fn head_width(&self) -> usize {
        match self.head_out {
            Some(w) => w,
            None => self.channels,
        }
    }

    /// The width that the head of the array starts from.
    pub open spec fn head_in(&self) -> usize {
        if self.head_active {
            self.head_width()
        } else {
            self.bottleneck
        }
    }

    /// Whether all widths fit.
    pub open spec fn widths_fit(&self) -> bool {
        &&& width_fits(self.input) && width_fits(self.condition) && width_fits(self.channels)
        &&& width_fits(self.bottleneck) && width_fits(self.head_size)
        &&& self.head_active || self.head_film ==> width_fits(self.head_width())
    }
}

/// How far an array looks back, if it fits.
pub open spec fn array_looks_back(array: (ArraySizes, Seq<usize>, Seq<usize>)) -> Option<usize> {
    let (sizes, kernels, dilations) = array;
    if sizes.widths_fit() && kernels.len() == dilations.len() && count_fits(kernels.len() as int) {
        both(
            layers_look_back(sizes.channels, kernels, dilations, kernels.len()),
            look_back(sizes.head_in(), sizes.head_kernel, 1),
        )
    } else {
        None
    }
}

/// How far the first `n` arrays look back, if they fit.
pub open spec fn arrays_look_back(
    arrays: Seq<(ArraySizes, Seq<usize>, Seq<usize>)>,
    n: nat,
) -> Option<usize>
    decreases n,
{
    if n == 0 {
        Some(0)
    } else {
        both(arrays_look_back(arrays, (n - 1) as nat), array_looks_back(arrays[n - 1]))
    }
}

/// How far the first `n` convolutions of a head look back, if they fit. The first has
/// `inputs`, the others `channels`.
pub open spec fn kernels_look_back(
    inputs: usize,
    channels: usize,
    kernels: Seq<usize>,
    n: nat,
) -> Option<usize>
    decreases n,
{
    if n == 0 {
        Some(0)
    } else {
        both(
            kernels_look_back(inputs, channels, kernels, (n - 1) as nat),
            look_back(
                if n == 1 {
                    inputs
                } else {
                    channels
                },
                kernels[n - 1],
                1,
            ),
        )
    }
}

/// How far a head looks back, if it fits.
pub open spec fn head_looks_back(inputs: usize, head: Option<(usize, Seq<usize>)>) -> Option<usize> {
    match head {
        None => Some(0),
        Some((channels, kernels)) => if count_fits(kernels.len() as int) && (kernels.len() > 1
            ==> width_fits(channels)) {
            kernels_look_back(inputs, channels, kernels, kernels.len())
        } else {
            None
        },
    }
}

/// Whether a recurrent network fits: its layers, at up to 256 bytes each, and its
/// inputs where there are no hidden units, so that no number of weights bounds them.
pub open spec fn cell_fits(cell: Option<(usize, usize, usize)>) -> bool {
    match cell {
        None => true,
        Some((inputs, hidden, count)) => count * 256 <= isize::MAX && (hidden > 0 || inputs * 4
            <= isize::MAX),
    }
}

/// The width that the last array hands out.
pub open spec fn last_width(arrays: Seq<(ArraySizes, Seq<usize>, Seq<usize>)>) -> usize {
    if arrays.len() == 0 {
        0
    } else {
        arrays.last().0.head_size
    }
}

/// How far a model with these parts looks back, leaving aside the models within; nothing
/// if some part of it is too large to be built, or has a kernel of size zero.
pub open spec fn parts_look_back(
    arrays: Seq<(ArraySizes, Seq<usize>, Seq<usize>)>,
    head: Option<(usize, Seq<usize>)>,
    cell: Option<(usize, usize, usize)>,
) -> Option<usize> {
    if count_fits(arrays.len() as int) && cell_fits(cell) {
        both(
            arrays_look_back(arrays, arrays.len()),
            head_looks_back(last_width(arrays), head),
        )
    } else {
        None
    }
}

/// Whether building a model fails for its weights or its features, before its sizes
/// matter. One that conditions another may have several outputs; one that stands
/// `alone` may not.
pub open spec fn fails_early(weighing: Weighing, weights: usize, alone: bool) -> bool {
    match weighing {
        Weighing::Unasked => false,
        Weighing::Wants(n) => n != weights,
        Weighing::TooMany => true,
        Weighing::Refused => alone,
    }
}

/// What comes of a model, from what comes of the models within and from its own parts.
pub open spec fn outlook_is(inner: Outlook, fails: bool, own: Option<usize>) -> Outlook {
    match inner {
        Outlook::Reaches(x) => if fails {
            Outlook::Fails
        } else {
            match both(own, Some(x)) {
                Some(reach) => Outlook::Reaches(reach),
                None => Outlook::TooLarge,
            }
        },
        _ => inner,
    }
}

/// What comes of a model where none is nested deeper than `depth`.
pub open spec fn model_outlook(model: nam_rs::NamModel, alone: bool, depth: nat) -> Outlook
    decreases depth, models_within(model).len() + 1,
{
    let models = models_within(model);
    if count_fits(models.len() as int) {
        outlook_is(
            models_outlook(models, weighing_of(model) is Unasked, depth, models.len()),
            fails_early(weighing_of(model), weights_of(model), alone),
            parts_look_back(arrays_of(model), head_of(model), cell_of(model)),
        )
    } else {
        Outlook::TooLarge
    }
}

/// What comes of the first `n` models, nested in one at `depth` and built in turn.
pub open spec fn models_outlook(
    models: Seq<nam_rs::NamModel>,
    alone: bool,
    depth: nat,
    n: nat,
) -> Outlook
    decreases depth, n,
{
    if n == 0 {
        Outlook::Reaches(0)
    } else if depth == 0 {
        Outlook::TooLarge
    } else {
        match models_outlook(models, alone, depth, (n - 1) as nat) {
            Outlook::Reaches(x) => outlook_is(
                model_outlook(models[n - 1], alone, (depth - 1) as nat),
                false,
                Some(x),
            ),
            other => other,
        }
    }
}

/// No text nests models deeper: the reader of texts allows 128 levels of nesting.
pub const DEEPEST: usize = 128;

/// Whether no size stands in the way of building a network.
pub open spec fn buildable(model: nam_rs::NamModel) -> bool {
    match model_outlook(model, true, DEEPEST as nat) {
        Outlook::Fails => true,
        Outlook::Reaches(reach) => reach < usize::MAX,
        Outlook::TooLarge => false,
    }
}

/// `models` lead from one that was read from a text to one within.
pub open spec fn leads_in(json: Seq<char>, models: Seq<nam_rs::NamModel>) -> bool {
    &&& models.len() > 0
    &&& parsed(json) == Ok::<nam_rs::NamModel, nam_rs::Error>(models[0])
    &&& forall|i: int|
        #![trigger models[i]]
        0 <= i < models.len() - 1 ==> models_within(models[i]).contains(models[i + 1])
}

/// Whether a model was read from a text, or is within one that was.
pub open spec fn comes_from_text(model: nam_rs::NamModel) -> bool {
    exists|json: Seq<char>, models: Seq<nam_rs::NamModel>| #[trigger]
        leads_in(json, models) && models.last() == model
}

/// The models within one that comes from a text come from it too.
proof fn inner_models_come_from_text(model: nam_rs::NamModel, inner: nam_rs::NamModel)
    requires
        comes_from_text(model),
        models_within(model).contains(inner),
    ensures
        comes_from_text(inner),
{
    let (json, models) = choose|json: Seq<char>, models: Seq<nam_rs::NamModel>| #[trigger]
        leads_in(json, models) && models.last() == model;
    let longer = models.push(inner);
    assert forall|i: int|
        #![trigger longer[i]]
        0 <= i < longer.len() - 1 implies models_within(longer[i]).contains(longer[i + 1]) by {
        if i + 1 < models.len() {
            assert(models_within(models[i]).contains(models[i + 1]));
        }
    }
    assert(leads_in(json, longer));
}

/// How far a convolution looks back, if it fits.
pub fn reach_of_conv(inputs: usize, kernel: usize, dilation: usize) -> (r: Option<usize>)
    ensures
        r == look_back(inputs, kernel, dilation),
{
    if kernel == 0 {
        return None;
    }
    let ghost exact = (kernel - 1) * dilation;
    assert(0 <= exact) by (nonlinear_arith)
        requires
            exact == (kernel - 1) * dilation,
            kernel > 0,
    ;
    let most: usize = isize::MAX as usize;
    let reach: usize = match (kernel - 1).checked_mul(dilation) {
        Some(reach) => reach,
        None => {
            return None;
        },
    };
    if reach > most - 1024 {
        return None;
    }
    let stride: usize = reach + 1024;
    assert(inputs * stride * 4 == (inputs * stride) * 4) by (nonlinear_arith);
    match inputs.checked_mul(stride) {
        Some(n) => if n <= most / 4 {
            Some(reach)
        } else {
            None
        },
        None => None,
    }
}

/// The sum of two distances, if both are there and it can be counted.
fn sum_of(a: Option<usize>, b: Option<usize>) -> (r: Option<usize>)
    ensures
        r == both(a, b),
{
    match (a, b) {
        (Some(x), Some(y)) => x.checked_add(y),
        _ => None,
    }
}

fn is_width_fit(width: usize) -> (r: bool)
    ensures
        r == width_fits(width),
{
    width <= isize::MAX as usize / 16384
}

fn is_count_fit(count: usize) -> (r: bool)
    ensures
        r == count_fits(count as int),
{
    count <= isize::MAX as usize / 8192
}

/// How far an array looks back, if it fits.
fn reach_of_array(sizes: ArraySizes, kernels: &Vec<usize>, dilations: &Vec<usize>) -> (r: Option<
    usize,
>)
    ensures
        r == array_looks_back((sizes, kernels@, dilations@)),
{
    let head_width: usize = match sizes.head_out {
        Some(w) => w,
        None => sizes.channels,
    };
    let head_in: usize = if sizes.head_active {
        head_width
    } else {
        sizes.bottleneck
    };
    if !(is_width_fit(sizes.input) && is_width_fit(sizes.condition) && is_width_fit(sizes.channels)
        && is_width_fit(sizes.bottleneck) && is_width_fit(sizes.head_size)) {
        return None;
    }
    if (sizes.head_active || sizes.head_film) && !is_width_fit(head_width) {
        return None;
    }
    if kernels.len() != dilations.len() || !is_count_fit(kernels.len()) {
        return None;
    }
    let mut reach: Option<usize> = Some(0);
    let mut i: usize = 0;
    while i < kernels.len()
        invariant
            i <= kernels@.len(),
            kernels@.len() == dilations@.len(),
            reach == layers_look_back(sizes.channels, kernels@, dilations@, i as nat),
        decreases kernels@.len() - i,
    {
        reach = sum_of(reach, reach_of_conv(sizes.channels, kernels[i], dilations[i]));
        i = i + 1;
    }
    sum_of(reach, reach_of_conv(head_in, sizes.head_kernel, 1))
}

/// How far a head looks back, if it fits.
fn reach_of_head(inputs: usize, head: &Option<(usize, Vec<usize>)>) -> (r: Option<usize>)
    ensures
        r == head_looks_back(inputs, head_view(*head)),
{
    match head {
        None => Some(0),
        Some((channels, kernels)) => {
            if !is_count_fit(kernels.len()) || (kernels.len() > 1 && !is_width_fit(*channels)) {
                return None;
            }
            let mut reach: Option<usize> = Some(0);
            let mut i: usize = 0;
            while i < kernels.len()
                invariant
                    i <= kernels@.len(),
                    reach == kernels_look_back(inputs, *channels, kernels@, i as nat),
                decreases kernels@.len() - i,
            {
                let width: usize = if i == 0 {
                    inputs
                } else {
                    *channels
                };
                reach = sum_of(reach, reach_of_conv(width, kernels[i], 1));
                i = i + 1;
            }
            reach
        },
    }
}

/// How far a model with these parts looks back, leaving aside the models within; nothing
/// if it cannot be built.
pub fn reach_of_parts(
    arrays: &Vec<(ArraySizes, Vec<usize>, Vec<usize>)>,
    head: &Option<(usize, Vec<usize>)>,
    cell: &Option<(usize, usize, usize)>,
) -> (r: Option<usize>)
    ensures
        r == parts_look_back(array_views(arrays@), head_view(*head), *cell),
{
    let ghost views = array_views(arrays@);
    if !is_count_fit(arrays.len()) {
        return None;
    }
    if let Some((inputs, hidden, count)) = *cell {
        if count > isize::MAX as usize / 256 || (hidden == 0 && inputs > isize::MAX as usize / 4) {
            return None;
        }
    }
    let mut reach: Option<usize> = Some(0);
    let mut last: usize = 0;
    let mut i: usize = 0;
    while i < arrays.len()
        invariant
            i <= arrays@.len(),
            views == array_views(arrays@),
            reach == arrays_look_back(views, i as nat),
            last == if i == 0 {
                0
            } else {
                views[i - 1].0.head_size
            },
        decreases arrays@.len() - i,
    {
        let (sizes, kernels, dilations) = &arrays[i];
        reach = sum_of(reach, reach_of_array(*sizes, kernels, dilations));
        last = sizes.head_size;
        i = i + 1;
    }
    sum_of(reach, reach_of_head(last, head))
}

/// Whether building a model fails for its weights or its features, before its sizes
/// matter.
pub fn is_early_failure(weighing: Weighing, weights: usize, alone: bool) -> (r: bool)
    ensures
        r == fails_early(weighing, weights, alone),
{
    match weighing {
        Weighing::Unasked => false,
        Weighing::Wants(n) => n != weights,
        Weighing::TooMany => true,
        Weighing::Refused => alone,
    }
}

/// What comes of a model, from what comes of the models within and from its own parts.
pub fn outlook(inner: Outlook, fails: bool, own: Option<usize>) -> (r: Outlook)
    ensures
        r == outlook_is(inner, fails, own),
{
    match inner {
        Outlook::Reaches(x) => if fails {
            Outlook::Fails
        } else {
            match sum_of(own, Some(x)) {
                Some(reach) => Outlook::Reaches(reach),
                None => Outlook::TooLarge,
            }
        },
        _ => inner,
    }
}

/// What comes of a model and the models within.
fn outlook_of(model: &nam_rs::NamModel, alone: bool, depth: usize) -> (r: Outlook)
    requires
        comes_from_text(*model),
    ensures
        r == model_outlook(*model, alone, depth as nat),
    decreases depth,
{
    let inner = within(model);
    if !is_count_fit(inner.len()) {
        return Outlook::TooLarge;
    }
    if inner.len() > 0 && depth == 0 {
        return Outlook::TooLarge;
    }
    let weighing = weigh(model);
    let inner_alone: bool = matches!(weighing, Weighing::Unasked);
    let ghost models = models_within(*model);
    let mut sum: Outlook = Outlook::Reaches(0);
    let mut i: usize = 0;
    while i < inner.len()
        invariant
            i <= inner@.len(),
            inner@.len() > 0 ==> depth > 0,
            inner@.len() == models.len(),
            models == models_within(*model),
            comes_from_text(*model),
            forall|k: int| 0 <= k < inner@.len() ==> *(#[trigger] inner@[k]) == models[k],
            sum == models_outlook(models, inner_alone, depth as nat, i as nat),
        decreases inner@.len() - i,
    {
        assert(*inner@[i as int] == models[i as int]);
        if let Outlook::Reaches(x) = sum {
            proof {
                inner_models_come_from_text(*model, models[i as int]);
            }
            sum = outlook(outlook_of(inner[i], inner_alone, depth - 1), false, Some(x));
        }
        i = i + 1;
    }
    let own = reach_of_parts(&arrays(model), &head(model), &cell(model));
    outlook(sum, is_early_failure(weighing, weights(model), alone), own)
}

/// Whether no size stands in the way of building a network.
fn is_buildable(model: &nam_rs::NamModel) -> (r: bool)
    requires
        comes_from_text(*model),
    ensures
        r == buildable(*model),
{
    match outlook_of(model, true, DEEPEST) {
        Outlook::Fails => true,
        Outlook::Reaches(reach) => reach < usize::MAX,
        Outlook::TooLarge => false,
    }
}

/// A model that was read from a text comes from it.
proof fn read_models_come_from_text(json: Seq<char>, model: nam_rs::NamModel)
    requires
        parsed(json) == Ok::<nam_rs::NamModel, nam_rs::Error>(model),
    ensures
        comes_from_text(model),
{
    let models = seq![model];
    assert(leads_in(json, models) && models.last() == model);
}

/// What is known of a model once it was read.
pub struct NamInfo {
    /// The sample rate that it was trained at, as a double-precision bit pattern.
    pub sample_rate: u64,
}

/// The message for a text that is no model, with the reason.
pub fn parse_failure(reason: &str) -> (r: String)
    ensures
        r@ == "解析失敗："@ + reason@,
{
    "解析失敗：".to_owned().concat(reason)
}

/// The message for a model that no network can be built for, with the reason.
pub fn build_failure(reason: &str) -> (r: String)
    ensures
        r@ == "建置失敗："@ + reason@,
{
    "建置失敗：".to_owned().concat(reason)
}

/// `text` is a display of the error `e`.
pub open spec fn displays(e: nam_rs::Error, text: Seq<char>) -> bool {
    exists|s: String| #[trigger] to_string_from_display_ensures::<nam_rs::Error>(&e, s) && s@ == text
}

/// `r` is what is to be said of the text `json`: the rate of the model, or why it
/// cannot be read, or why no network can be built for it; sizes that stand in the way
/// are such a reason.
pub open spec fn validated(json: Seq<char>, r: Result<NamInfo, String>) -> bool {
    match parsed(json) {
        Err(e) => r is Err && exists|reason: Seq<char>| #[trigger]
            displays(e, reason) && r->Err_0@ == "解析失敗："@ + reason,
        Ok(model) => if !buildable(model) {
            r is Err && r->Err_0@ == "建置失敗："@ + "模型尺寸無效"@
        } else {
            match built(model) {
                Err(e) => r is Err && exists|reason: Seq<char>| #[trigger]
                    displays(e, reason) && r->Err_0@ == "建置失敗："@ + reason,
                Ok(_) => r == Ok::<NamInfo, String>(NamInfo { sample_rate: rate_of(model) }),
            }
        },
    }
}

/// Whether a text is a model that can be run, before the stream starts.
pub fn validate(json: &str) -> (r: Result<NamInfo, String>)
    ensures
        validated(json@, r),
{
    match parse(json) {
        Err(e) => {
            let reason = e.to_string();
            assert(displays(e, reason@));
            Err(parse_failure(reason.as_str()))
        },
        Ok(model) => {
            proof {
                read_models_come_from_text(json@, model);
            }
            let sample_rate: u64 = expected_sample_rate(&model);
            if !is_buildable(&model) {
                return Err(build_failure("模型尺寸無效"));
            }
            match build(&model) {
                Err(e) => {
                    let reason = e.to_string();
                    assert(displays(e, reason@));
                    Err(build_failure(reason.as_str()))
                },
                Ok(_) => Ok(NamInfo { sample_rate }),
            }
        },
    }
}

/// `r` is a result of whether a model trained at `model_rate` is off pitch at
/// `sample_rate`: the two are more than one hertz apart.
pub open spec fn off_pitch_is<F: Arith>(model_rate: u64, sample_rate: u32, r: bool) -> bool {
    exists|rate: u32, gap: u32| #[trigger]
        narrow_is::<F>(model_rate, rate) && #[trigger] difference_is::<F>(rate, sample_rate, gap)
            && r == below(ONE, magnitude(gap))
}

/// Whether a model trained at `model_rate` is off pitch at `sample_rate`.
pub fn off_pitch<F: Arith>(model_rate: u64, sample_rate: u32) -> (r: bool)
    ensures
        off_pitch_is::<F>(model_rate, sample_rate, r),
{
    let rate: u32 = F::narrow(model_rate);
    let gap: u32 = F::minus(rate, sample_rate);
    assert(narrow_is::<F>(model_rate, rate) && difference_is::<F>(rate, sample_rate, gap));
    lt(ONE, abs(gap))
}

/// Runs a network, supplied from outside; nothing is taken for granted of its
/// results.
pub trait Inference: Sized {
    /// Runs `model` over the samples `io`, which it replaces.
    fn infer(model: nam_rs::Model, io: Vec<u32>) -> (nam_rs::Model, Vec<u32>);
}

/// `(after, out)` is a result of running `model` over `input`.
pub open spec fn infer_is<I: Inference>(
    model: nam_rs::Model,
    input: Seq<u32>,
    after: nam_rs::Model,
    out: Seq<u32>,
) -> bool {
    exists|v: Vec<u32>, w: Vec<u32>| #[trigger]
        call_ensures(I::infer, (model, v), (after, w)) && v@ == input && w@ == out
}

/// `input` with `out` laid over its front.
pub open spec fn overlaid(input: Seq<u32>, out: Seq<u32>) -> Seq<u32> {
    Seq::new(
        input.len(),
        |i: int|
            if i < out.len() {
                out[i]
            } else {
                input[i]
            },
    )
}

/// The amplifier.
pub struct Nam<F, I> {
    /// The model file.
    pub json: String,
    /// On from one half upwards.
    pub enabled: SharedParam,
    /// The network, once built.
    pub model: Option<nam_rs::Model>,
    /// Whether the network was trained at another rate than that of the stream.
    pub off_pitch: bool,
    /// The block that the network works on.
    pub io: Vec<u32>,
    /// The arithmetic and what runs the network.
    pub inference: PhantomData<(F, I)>,
}

/// The network that a text leads to, if it does.
pub open spec fn loaded(json: Seq<char>) -> Option<nam_rs::Model> {
    match parsed(json) {
        Err(_) => None,
        Ok(model) => if !buildable(model) {
            None
        } else {
            match built(model) {
                Err(_) => None,
                Ok(network) => Some(network),
            }
        },
    }
}

impl<F: Arith, I: Inference> Nam<F, I> {
    /// An amplifier with the model file `json`, not yet read, that follows the
    /// switch `enabled`.
    pub fn new(json: String, enabled: SharedParam) -> (r: Self)
        ensures
            r.json == json,
            r.enabled == enabled,
            r.model is None,
            !r.off_pitch,
    {
        Nam {
            json,
            enabled,
            model: None,
            off_pitch: false,
            io: Vec::new(),
            inference: PhantomData,
        }
    }

    /// A block at a given value of the switch: handed through while switched off
    /// or without a network, and otherwise run through it.
    pub open spec fn processed_with(
        &self,
        enabled: u32,
        input: Seq<u32>,
        after: Self,
        output: Seq<u32>,
    ) -> bool {
        &&& after == Nam { model: after.model, io: after.io, ..*self }
        &&& if below(enabled, HALF) || self.model is None {
            after.model == self.model && output == input
        } else {
            after.model is Some && exists|out: Seq<u32>| #[trigger]
                infer_is::<I>(self.model->0, input, after.model->0, out) && output == overlaid(
                    input,
                    out,
                )
        }
    }

    /// One block at a given value of the switch.
    pub fn process_with(&mut self, enabled: u32, buf: &mut [u32])
        ensures
            final(buf)@.len() == old(buf)@.len(),
            old(self).processed_with(enabled, old(buf)@, *final(self), final(buf)@),
    {
        if lt(enabled, HALF) {
            return;
        }
        if let Some(model) = self.model.take() {
            let n: usize = buf.len();
            let mut io: Vec<u32> = Vec::new();
            core::mem::swap(&mut io, &mut self.io);
            io.clear();
            let mut i: usize = 0;
            while i < n
                invariant
                    i <= n,
                    n == buf@.len(),
                    io@ == buf@.take(i as int),
                decreases n - i,
            {
                io.push(buf[i]);
                assert(buf@.take(i + 1) == buf@.take(i as int).push(buf@[i as int]));
                i = i + 1;
            }
            assert(buf@.take(n as int) == buf@);
            let (model, out) = I::infer(model, io);
            let ghost input = buf@;
            let mut i: usize = 0;
            while i < n && i < out.len()
                invariant
                    i <= n,
                    i <= out@.len(),
                    n == buf@.len(),
                    n == input.len(),
                    forall|k: int| 0 <= k < i ==> buf@[k] == out@[k],
                    forall|k: int| i <= k < n ==> buf@[k] == input[k],
                decreases n - i,
            {
                buf[i] = out[i];
                i = i + 1;
            }
            assert(buf@ =~= overlaid(input, out@));
            self.model = Some(model);
            assert(infer_is::<I>(old(self).model->0, old(buf)@, self.model->0, out@));
            self.io = out;
        }
    }
}

impl<F: Arith, I: Inference> AudioProcessor for Nam<F, I> {
    open spec fn wf(&self) -> bool {
        true
    }

    open spec fn accepts(&self, n: nat) -> bool {
        true
    }

    open spec fn resettable(&self) -> bool {
        true
    }

    /// The network that the file leads to, whatever the sample rate, and whether it
    /// is off pitch at that rate; none if the file leads to none.
    open spec fn prepared(&self, sample_rate: u32, max_block: usize, after: Self) -> bool {
        &&& after == (Nam {
            model: loaded(self.json@),
            off_pitch: after.off_pitch,
            io: after.io,
            ..*self
        })
        &&& match loaded(self.json@) {
            None => !after.off_pitch,
            Some(_) => off_pitch_is::<F>(
                rate_of(parsed(self.json@)->Ok_0),
                sample_rate,
                after.off_pitch,
            ),
        }
    }

    /// As at some value that the switch had.
    open spec fn processed(&self, input: Seq<u32>, after: Self, output: Seq<u32>) -> bool {
        exists|enabled: u32| #[trigger]
            self.processed_with(enabled, input, after, output) && read_is(self.enabled, enabled)
    }

    open spec fn cleared(&self, after: Self) -> bool {
        after == (Nam {
            model: match self.model {
                None => None,
                Some(model) => Some(reset_of(model)),
            },
            ..*self
        })
    }

    fn prepare(&mut self, sample_rate: u32, max_block: usize) {
        self.model = None;
        self.off_pitch = false;
        if let Ok(model) = parse(self.json.as_str()) {
            proof {
                read_models_come_from_text(self.json@, model);
            }
            if is_buildable(&model) {
                if let Ok(network) = build(&model) {
                    self.off_pitch = off_pitch::<F>(expected_sample_rate(&model), sample_rate);
                    self.model = Some(network);
                }
            }
        }
        self.io = Vec::with_capacity(max_block);
    }

    fn process(&mut self, buf: &mut [u32]) {
        let enabled: u32 = read(&self.enabled);
        self.process_with(enabled, buf);
    }

    fn reset(&mut self) {
        if let Some(mut model) = self.model.take() {
            reset_model(&mut model);
            self.model = Some(model);
        }
    }
}

/// An amplifier that is switched off hands the signal through.
pub proof fn disabled_nam_is_identity<F: Arith, I: Inference>(
    nam: Nam<F, I>,
    enabled: u32,
    input: Seq<u32>,
    after: Nam<F, I>,
    output: Seq<u32>,
)
    requires
        nam.processed_with(enabled, input, after, output),
        below(enabled, HALF),
    ensures
        output == input,
{
}

/// A file that is validated is one that the amplifier can run, and only such a
/// file.
pub proof fn validated_files_load(json: Seq<char>, r: Result<NamInfo, String>)
    requires
        validated(json, r),
    ensures
        r is Ok <==> loaded(json) is Some,
{
}

/// An amplifier whose file leads to no network hands the signal through.
pub proof fn unreadable_nam_is_identity<F: Arith, I: Inference>(
    nam: Nam<F, I>,
    sample_rate: u32,
    max_block: usize,
    ready: Nam<F, I>,
    input: Seq<u32>,
    after: Nam<F, I>,
    output: Seq<u32>,
)
    requires
        loaded(nam.json@) is None,
        nam.prepared(sample_rate, max_block, ready),
        ready.processed(input, after, output),
    ensures
        output == input,
{
}

/// A model is off pitch where its rate is two hertz or more from that of the stream, on
/// whichever side, and not where it is one hertz from it or less.
pub proof fn models_are_off_pitch_at_other_rates<F: Arith>(
    model_rate: u64,
    worth: int,
    sample_rate: u32,
    r: bool,
)
    requires
        faithful::<F>(),
        off_pitch_is::<F>(model_rate, sample_rate, r),
        forall|rate: u32| #[trigger]
            narrow_is::<F>(model_rate, rate) ==> finite(rate) && units(rate) == worth,
        finite(sample_rate),
    ensures
        -one() <= worth - units(sample_rate) <= one() ==> !r,
        worth - units(sample_rate) >= 2 * one() || worth - units(sample_rate) <= -2 * one() ==> r,
{
    units_of_one();
    units_of_negated(ONE);
    units_of_negated(TWO);
    let (rate, gap) = choose|rate: u32, gap: u32| #[trigger]
        narrow_is::<F>(model_rate, rate) && #[trigger] difference_is::<F>(rate, sample_rate, gap)
            && r == below(ONE, magnitude(gap));
    let apart = worth - units(sample_rate);
    if -one() <= apart <= one() {
        rounds_above(apart, 1, gap, negated(ONE));
        rounds_below(apart, 1, gap, ONE);
    }
    if apart >= 2 * one() {
        rounds_above(apart, 1, gap, TWO);
    }
    if apart <= -2 * one() {
        rounds_below(apart, 1, gap, negated(TWO));
    }
}

/// What the network gives for the whole block takes its place, and what it gives for none
/// of it leaves the block as it is.
pub proof fn networks_replace_the_block(input: Seq<u32>, out: Seq<u32>)
    ensures
        overlaid(input, out).len() == input.len(),
        out.len() == input.len() ==> overlaid(input, out) == out,
        out.len() == 0 ==> overlaid(input, out) == input,
{
    assert(out.len() == input.len() ==> overlaid(input, out) =~= out);
    assert(out.len() == 0 ==> overlaid(input, out) =~= input);
}

/// A network that is switched on is heard: it runs over the block, and what it gives takes
/// the place of the samples, one for one.
pub proof fn networks_are_heard<F: Arith, I: Inference>(
    nam: Nam<F, I>,
    enabled: u32,
    input: Seq<u32>,
    after: Nam<F, I>,
    output: Seq<u32>,
)
    requires
        nam.processed_with(enabled, input, after, output),
        !below(enabled, HALF),
        nam.model is Some,
    ensures
        output.len() == input.len(),
        after.model is Some,
        exists|out: Seq<u32>| #[trigger]
            infer_is::<I>(nam.model->0, input, after.model->0, out) && forall|i: int|
                0 <= i < input.len() && i < out.len() ==> #[trigger] output[i] == out[i],
{
    let out = choose|out: Seq<u32>| #[trigger]
        infer_is::<I>(nam.model->0, input, after.model->0, out) && output == overlaid(input, out);
    assert(infer_is::<I>(nam.model->0, input, after.model->0, out));
}

} // verus!
