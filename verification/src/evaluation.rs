//! Graph evaluation decisions. Node values and the templates that compute
//! them are floating point and live with the caller; the library decides, for
//! each input port of a node, where its value comes from.

use vstd::prelude::*;

verus! {

/// Outputs a constant float.
pub struct FloatConstant;

/// Adds two floats.
pub struct AddFloat;

/// Multiplies two floats.
pub struct MultiplyFloat;

/// Linear interpolation between two floats: `mix = a*(1-t) + b*t`.
pub struct MixFloat;

/// Where an input port's value comes from.
#[derive(Clone, Copy, Debug, PartialEq, Eq, Structural)]
pub enum InputSource {
    /// The cached output reached through the incoming connection at this
    /// position of the node's incoming list.
    Connection(usize),
    /// The node's own stored input value for the port.
    Own,
    /// The port's default value.
    Default,
    /// No value (`None`).
    Empty,
}

/// Position of the first incoming connection (among the first `n`) that
/// targets `port` and whose source has a cached output at its source port.
pub open spec fn first_feeding(
    incoming: Seq<(u64, usize, u64, usize)>,
    available: Seq<bool>,
    port: usize,
    n: nat,
) -> Option<usize>
    decreases n,
{
    if n == 0 {
        None
    } else {
        match first_feeding(incoming, available, port, (n - 1) as nat) {
            Some(j) => Some(j),
            None => if incoming[n - 1].3 == port && available[n - 1] {
                Some((n - 1) as usize)
            } else {
                None
            },
        }
    }
}

/// The source of input `port`: the first connection into the port whose
/// source has a cached output there; else the node's own value if it has
/// one for the port; else the port default if it has one; else nothing.
pub open spec fn input_source_spec(
    incoming: Seq<(u64, usize, u64, usize)>,
    available: Seq<bool>,
    port: usize,
    own_count: usize,
    has_default: bool,
) -> InputSource {
    match first_feeding(incoming, available, port, incoming.len()) {
        Some(j) => InputSource::Connection(j),
        None => if port < own_count {
            InputSource::Own
        } else if has_default {
            InputSource::Default
        } else {
            InputSource::Empty
        },
    }
}

/// Decide where the value of input `port` comes from. `incoming` lists the
/// node's incoming connections as `(source, source_port, target,
/// target_port)`; `available[j]` says whether the source of connection `j`
/// has a cached output at its source port; `own_count` is how many input
/// values the node stores; `has_default` whether the port has a default.
pub fn choose_input(
    incoming: &Vec<(u64, usize, u64, usize)>,
    available: &Vec<bool>,
    port: usize,
    own_count: usize,
    has_default: bool,
) -> (r: InputSource)
    requires
        available@.len() == incoming@.len(),
    ensures
        r == input_source_spec(incoming@, available@, port, own_count, has_default),
{
    let mut j: usize = 0;
    while j < incoming.len()
        invariant
            0 <= j <= incoming@.len(),
            available@.len() == incoming@.len(),
            first_feeding(incoming@, available@, port, j as nat).is_none(),
        decreases incoming.len() - j,
    {
        if incoming[j].3 == port && available[j] {
            assert(first_feeding(incoming@, available@, port, (j + 1) as nat) == Some(j));
            proof {
                lemma_first_feeding_stays(incoming@, available@, port, (j + 1) as nat, incoming@.len());
            }
            return InputSource::Connection(j);
        }
        j = j + 1;
    }
    if port < own_count {
        InputSource::Own
    } else if has_default {
        InputSource::Default
    } else {
        InputSource::Empty
    }
}

/// Once a feeding connection is found, looking further keeps it.
pub proof fn lemma_first_feeding_stays(
    incoming: Seq<(u64, usize, u64, usize)>,
    available: Seq<bool>,
    port: usize,
    n: nat,
    m: nat,
)
    requires
        n <= m,
        first_feeding(incoming, available, port, n).is_some(),
    ensures
        first_feeding(incoming, available, port, m) == first_feeding(incoming, available, port, n),
    decreases m - n,
{
    if n < m {
        lemma_first_feeding_stays(incoming, available, port, n, (m - 1) as nat);
    }
}

} // verus!
