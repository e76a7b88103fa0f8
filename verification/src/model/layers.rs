//! Layers of the network: their construction and how widths pass through them.

use vstd::prelude::*;

use crate::error::{pipeline_text, ClassifierError};
use crate::model::pointnet::{BatchNorm1d, Layer, Linear, TNet};
use crate::text::{concat5, decimal, decimal_text};

verus! {

/// A message that names two numbers.
pub open spec fn two_numbers(
    head: Seq<char>,
    a: nat,
    middle: Seq<char>,
    b: nat,
    tail: Seq<char>,
) -> Seq<char> {
    head + decimal(a) + middle + decimal(b) + tail
}

fn misfit(head: &str, a: usize, middle: &str, b: usize, tail: &str) -> (r: ClassifierError)
    ensures
        r.text() == pipeline_text(two_numbers(head@, a as nat, middle@, b as nat, tail@)),
{
    let x = decimal_text(a as u64);
    let y = decimal_text(b as u64);
    ClassifierError::Pipeline(concat5(head, x.as_str(), middle, y.as_str(), tail))
}

impl Linear {
    /// A dense layer of `dim_out` rows of `dim_in` weights each; fails where
    /// there is not one bias per row.
    pub fn new(dim_in: usize, dim_out: usize, weight: Vec<u32>, bias: Vec<u32>) -> (r: Result<
        Linear,
        ClassifierError,
    >)
        ensures
            match r {
                Ok(l) => bias@.len() == dim_out && l == (Linear { dim_in, dim_out, weight, bias }),
                Err(e) => bias@.len() != dim_out && e.text() == pipeline_text(
                    two_numbers(
                        "Linear: weight rows ("@,
                        dim_out as nat,
                        ") != bias len ("@,
                        bias@.len(),
                        ")"@,
                    ),
                ),
            },
    {
        if bias.len() != dim_out {
            Err(misfit("Linear: weight rows (", dim_out, ") != bias len (", bias.len(), ")"))
        } else {
            Ok(Linear { dim_in, dim_out, weight, bias })
        }
    }
}

/// The lengths of a normalisation's parameters, as a message.
pub open spec fn lengths_message(gamma: nat, beta: nat, mean: nat, var: nat) -> Seq<char> {
    "BatchNorm1d: parameter length mismatch (gamma="@ + decimal(gamma) + ", beta="@ + decimal(beta)
        + ", mean="@ + decimal(mean) + ", var="@ + decimal(var) + ")"@
}

impl BatchNorm1d {
    /// A normalisation; fails unless its parameters are equally long.
    pub fn new(gamma: Vec<u32>, beta: Vec<u32>, mean: Vec<u32>, var: Vec<u32>) -> (r: Result<
        BatchNorm1d,
        ClassifierError,
    >)
        ensures
            match r {
                Ok(b) => {
                    &&& gamma@.len() == beta@.len() == mean@.len() == var@.len()
                    &&& b == (BatchNorm1d { gamma, beta, mean, var })
                },
                Err(e) => {
                    &&& !(gamma@.len() == beta@.len() == mean@.len() == var@.len())
                    &&& e.text() == pipeline_text(
                        lengths_message(gamma@.len(), beta@.len(), mean@.len(), var@.len()),
                    )
                },
            },
    {
        let n: usize = gamma.len();
        if beta.len() != n || mean.len() != n || var.len() != n {
            let g = decimal_text(n as u64);
            let b = decimal_text(beta.len() as u64);
            let m = decimal_text(mean.len() as u64);
            let v = decimal_text(var.len() as u64);
            let mut text = concat5(
                "BatchNorm1d: parameter length mismatch (gamma=",
                g.as_str(),
                ", beta=",
                b.as_str(),
                ", mean=",
            );
            text.append(m.as_str());
            text.append(", var=");
            text.append(v.as_str());
            text.append(")");
            Err(ClassifierError::Pipeline(text))
        } else {
            Ok(BatchNorm1d { gamma, beta, mean, var })
        }
    }
}

// ── Widths ──────────────────────────────────────────────────────────────────

/// What a matrix (or, where `flat`, a vector) of this width becomes in a dense
/// layer: the new width, or the message of the failure.
pub open spec fn dense_width(l: Linear, width: nat, flat: bool) -> Result<nat, Seq<char>> {
    if width == l.dim_in {
        Ok(l.dim_out as nat)
    } else if flat {
        Err(
            two_numbers(
                "Linear::forward_1d: input len ("@,
                width,
                ") != weight cols ("@,
                l.dim_in as nat,
                ")"@,
            ),
        )
    } else {
        Err(
            two_numbers(
                "Linear::forward: input cols ("@,
                width,
                ") != weight cols ("@,
                l.dim_in as nat,
                ")"@,
            ),
        )
    }
}

/// The same for a normalisation, which keeps the width.
pub open spec fn norm_width(bn: Option<BatchNorm1d>, width: nat, flat: bool) -> Result<
    nat,
    Seq<char>,
> {
    match bn {
        None => Ok(width),
        Some(b) => if width == b.gamma@.len() {
            Ok(width)
        } else if flat {
            Err(
                two_numbers(
                    "BatchNorm1d::forward_1d: input len ("@,
                    width,
                    ") != num features ("@,
                    b.gamma@.len(),
                    ")"@,
                ),
            )
        } else {
            Err(
                two_numbers(
                    "BatchNorm1d::forward: input cols ("@,
                    width,
                    ") != num features ("@,
                    b.gamma@.len(),
                    ")"@,
                ),
            )
        },
    }
}

/// The same for a dense layer with its normalisation.
pub open spec fn layer_width(l: Layer, width: nat, flat: bool) -> Result<nat, Seq<char>> {
    match dense_width(l.linear, width, flat) {
        Ok(w) => norm_width(l.bn, w, flat),
        Err(m) => Err(m),
    }
}

/// The same for the layers from `from` up to `to`, one after the other.
pub open spec fn run_width(layers: Seq<Layer>, from: int, to: int, width: nat, flat: bool) -> Result<
    nat,
    Seq<char>,
>
    decreases to - from,
{
    if to <= from {
        Ok(width)
    } else {
        match run_width(layers, from, to - 1, width, flat) {
            Ok(w) => layer_width(layers[to - 1], w, flat),
            Err(m) => Err(m),
        }
    }
}

/// A result that is the width, or fails with the message.
pub open spec fn reports(r: Result<usize, ClassifierError>, s: Result<nat, Seq<char>>) -> bool {
    match r {
        Ok(w) => s == Ok::<nat, Seq<char>>(w as nat),
        Err(e) => s matches Err(m) && e.text() == pipeline_text(m),
    }
}

impl Linear {
    /// The width that a matrix (or, where `flat`, a vector) of this width has
    /// after the layer.
    pub fn width_after(&self, width: usize, flat: bool) -> (r: Result<usize, ClassifierError>)
        ensures
            reports(r, dense_width(*self, width as nat, flat)),
    {
        if width == self.dim_in {
            Ok(self.dim_out)
        } else if flat {
            Err(
                misfit(
                    "Linear::forward_1d: input len (",
                    width,
                    ") != weight cols (",
                    self.dim_in,
                    ")",
                ),
            )
        } else {
            Err(
                misfit(
                    "Linear::forward: input cols (",
                    width,
                    ") != weight cols (",
                    self.dim_in,
                    ")",
                ),
            )
        }
    }
}

impl Layer {
    /// The width that a matrix (or, where `flat`, a vector) of this width has
    /// after the layer and its normalisation.
    pub fn width_after(&self, width: usize, flat: bool) -> (r: Result<usize, ClassifierError>)
        ensures
            reports(r, layer_width(*self, width as nat, flat)),
    {
        match self.linear.width_after(width, flat) {
            Err(e) => Err(e),
            Ok(w) => match &self.bn {
                None => Ok(w),
                Some(b) => if w == b.gamma.len() {
                    Ok(w)
                } else if flat {
                    Err(
                        misfit(
                            "BatchNorm1d::forward_1d: input len (",
                            w,
                            ") != num features (",
                            b.gamma.len(),
                            ")",
                        ),
                    )
                } else {
                    Err(
                        misfit(
                            "BatchNorm1d::forward: input cols (",
                            w,
                            ") != num features (",
                            b.gamma.len(),
                            ")",
                        ),
                    )
                },
            },
        }
    }
}

/// The width after the layers from `from` up to `to`.
pub fn width_through(
    layers: &Vec<Layer>,
    from: usize,
    to: usize,
    width: usize,
    flat: bool,
) -> (r: Result<usize, ClassifierError>)
    requires
        from <= to <= layers@.len(),
    ensures
        reports(r, run_width(layers@, from as int, to as int, width as nat, flat)),
{
    let mut w: usize = width;
    let mut i: usize = from;
    while i < to
        invariant
            from <= i <= to <= layers@.len(),
            run_width(layers@, from as int, i as int, width as nat, flat) == Ok::<nat, Seq<char>>(
                w as nat,
            ),
        decreases to - i,
    {
        match layers[i].width_after(w, flat) {
            Ok(next) => {
                w = next;
            },
            Err(e) => {
                proof {
                    lemma_run_fails(
                        layers@,
                        from as int,
                        i as int + 1,
                        to as int,
                        width as nat,
                        flat,
                    );
                }
                return Err(e);
            },
        }
        i = i + 1;
    }
    Ok(w)
}

proof fn lemma_run_fails(
    layers: Seq<Layer>,
    from: int,
    mid: int,
    to: int,
    width: nat,
    flat: bool,
)
    requires
        from < mid <= to,
        run_width(layers, from, mid, width, flat) is Err,
    ensures
        run_width(layers, from, to, width, flat) == run_width(layers, from, mid, width, flat),
    decreases to - mid,
{
    if mid < to {
        lemma_run_fails(layers, from, mid, to - 1, width, flat);
    }
}

/// What a matrix of this width meets in a transform net: nothing, or the
/// message of the failure.
pub open spec fn tnet_width(t: TNet, width: nat) -> Result<nat, Seq<char>> {
    if width != t.k {
        Err(two_numbers("TNet::forward: input cols ("@, width, ") != k ("@, t.k as nat, ")"@))
    } else {
        match run_width(t.layers@, 0, 3, width, false) {
            Err(m) => Err(m),
            Ok(pooled) => match run_width(t.layers@, 3, 5, pooled, true) {
                Err(m) => Err(m),
                Ok(w) => match dense_width(t.layers@[5].linear, w, true) {
                    Err(m) => Err(m),
                    Ok(last) => if last == t.k * t.k {
                        Ok(width)
                    } else {
                        Err(
                            two_numbers(
                                "TNet::forward: final FC output len ("@,
                                last,
                                ") != k² ("@,
                                (t.k * t.k) as nat,
                                ")"@,
                            ),
                        )
                    },
                },
            },
        }
    }
}

impl TNet {
    /// Whether a matrix of this width can go through the net, which keeps the
    /// width.
    pub fn check_width(&self, width: usize) -> (r: Result<usize, ClassifierError>)
        requires
            self.layers@.len() == 6,
            self.k * self.k <= usize::MAX,
        ensures
            reports(r, tnet_width(*self, width as nat)),
    {
        if width != self.k {
            return Err(misfit("TNet::forward: input cols (", width, ") != k (", self.k, ")"));
        }
        let pooled: usize = match width_through(&self.layers, 0, 3, width, false) {
            Ok(w) => w,
            Err(e) => {
                return Err(e);
            },
        };
        let before_last: usize = match width_through(&self.layers, 3, 5, pooled, true) {
            Ok(w) => w,
            Err(e) => {
                return Err(e);
            },
        };
        let last: usize = match self.layers[5].linear.width_after(before_last, true) {
            Ok(w) => w,
            Err(e) => {
                return Err(e);
            },
        };
        let square: usize = self.k * self.k;
        if last != square {
            return Err(
                misfit(
                    "TNet::forward: final FC output len (",
                    last,
                    ") != k² (",
                    square,
                    ")",
                ),
            );
        }
        Ok(width)
    }
}

// ── Layers that fit one another ─────────────────────────────────────────────

/// A run of layers takes rows of a width exactly where its first layer takes
/// them, each further layer takes what the one before gives, and each
/// normalisation has as many parameters as its layer has outputs. The run gives
/// what its last layer gives.
pub proof fn law_layers_fit_one_another(
    layers: Seq<Layer>,
    from: int,
    to: int,
    width: nat,
    flat: bool,
)
    requires
        0 <= from <= to <= layers.len(),
    ensures
        run_width(layers, from, to, width, flat) is Ok <==> {
            &&& from < to ==> layers[from].linear.dim_in == width
            &&& forall|k: int|
                from < k < to ==> (#[trigger] layers[k]).linear.dim_in == layers[k
                    - 1].linear.dim_out
            &&& forall|k: int|
                from <= k < to && (#[trigger] layers[k]).bn is Some
                    ==> layers[k].bn.unwrap().gamma@.len() == layers[k].linear.dim_out
        },
        run_width(layers, from, to, width, flat) is Ok ==> run_width(
            layers,
            from,
            to,
            width,
            flat,
        )->Ok_0 == if from < to {
            layers[to - 1].linear.dim_out as nat
        } else {
            width
        },
    decreases to - from,
{
    if from < to {
        law_layers_fit_one_another(layers, from, to - 1, width, flat);
        let l = layers[to - 1];
        assert(l.linear.dim_in == layers[to - 1].linear.dim_in);
    }
}

/// A transform net takes rows of its own width, its six layers fit one another,
/// and the last one gives a square matrix of that width.
pub proof fn law_transform_net_fits(t: TNet, width: nat)
    requires
        t.layers@.len() == 6,
    ensures
        tnet_width(t, width) is Ok <==> {
            &&& width == t.k
            &&& t.layers@[0].linear.dim_in == t.k
            &&& forall|k: int|
                0 < k < 6 ==> (#[trigger] t.layers@[k]).linear.dim_in == t.layers@[k
                    - 1].linear.dim_out
            &&& forall|k: int|
                0 <= k < 5 && (#[trigger] t.layers@[k]).bn is Some
                    ==> t.layers@[k].bn.unwrap().gamma@.len() == t.layers@[k].linear.dim_out
            &&& t.layers@[5].linear.dim_out == t.k * t.k
        },
        tnet_width(t, width) is Ok ==> tnet_width(t, width)->Ok_0 == width,
{
    let l = t.layers@;
    law_layers_fit_one_another(l, 0, 3, width, false);
    law_layers_fit_one_another(l, 3, 5, l[2].linear.dim_out as nat, true);
    assert(l[3].linear.dim_in == l[3].linear.dim_in && l[4].linear.dim_in == l[4].linear.dim_in);
    assert(l[5].linear.dim_in == l[5].linear.dim_in);
    if tnet_width(t, width) is Ok {
        assert forall|k: int| 0 < k < 6 implies (#[trigger] l[k]).linear.dim_in == l[k
            - 1].linear.dim_out by {
            if k < 3 {
            } else if k == 3 {
            } else if k == 4 {
            } else {
            }
        }
    }
}

} // verus!
