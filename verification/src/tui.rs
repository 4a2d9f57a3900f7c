//! The grid layout of a genome's neurons for drawing: groups of neurons in columns of a fixed
//! maximum height, laid out inputs | hidden | outputs.
use crate::genome::{Connection, Genome};
use vstd::prelude::*;

verus! {

/// A group of `count` neurons laid out in a grid with a fixed maximum column height.
///
/// Width expands with the number of neurons: `ceil(count / max_height)` columns. Height stays
/// constant at `max_height` rows.
#[derive(Clone)]
pub struct NeuronGroup {
    pub count: usize,
    pub max_height: usize,
}

/// `a / b` rounded up.
pub open spec fn ceil_div(a: int, b: int) -> int {
    (a + b - 1) / b
}

impl NeuronGroup {
    pub fn new(count: usize, max_height: usize) -> (r: Self)
        ensures
            r.count == count,
            r.max_height == max_height,
    {
        Self { count, max_height }
    }

    /// The number of columns of this group: one for an empty group.
    pub open spec fn spec_num_cols(&self) -> int {
        if self.count == 0 {
            1
        } else {
            ceil_div(self.count as int, self.max_height as int)
        }
    }

    /// Number of columns needed to fit `count` neurons at `max_height` per column. A group with
    /// neurons needs a `max_height` above 0.
    pub fn num_cols(&self) -> (r: usize)
        requires
            self.count > 0 ==> self.max_height > 0,
        ensures
            r == self.spec_num_cols(),
    {
        if self.count == 0 {
            1
        } else {
            proof {
                lemma_ceil_div(self.count as int, self.max_height as int);
            }
            let q = self.count / self.max_height;
            if self.count % self.max_height == 0 {
                q
            } else {
                q + 1
            }
        }
    }

    /// Where neuron `slot` of this group stands: its column, its row in that column, and the
    /// number of neurons in that column. Columns fill top to bottom, left to right; only the last
    /// column may hold fewer than `max_height`.
    pub fn grid_slot(&self, slot: usize) -> (r: (usize, usize, usize))
        requires
            slot < self.count,
            self.max_height > 0,
        ensures
            r.0 == (slot as int) / (self.max_height as int),
            r.1 == (slot as int) % (self.max_height as int),
            r.2 == (if r.0 == self.spec_num_cols() - 1 && (self.count as int) % (
            self.max_height as int) != 0 {
                (self.count as int) % (self.max_height as int)
            } else {
                self.max_height as int
            }),
            r.1 < r.2,
            r.0 < self.spec_num_cols(),
    {
        let num_cols = self.num_cols();
        let col = slot / self.max_height;
        let row = slot % self.max_height;
        let rem = self.count % self.max_height;
        proof {
            lemma_grid(self.count as int, self.max_height as int, slot as int);
        }
        let col_size = if col == num_cols - 1 && rem != 0 {
            rem
        } else {
            self.max_height
        };
        (col, row, col_size)
    }
}

/// Rounding up adds one to the quotient exactly when there is a remainder, and then the
/// divisor is at least 2, so the result does not exceed the dividend.
proof fn lemma_ceil_div(count: int, h: int)
    requires
        count > 0,
        h > 0,
    ensures
        ceil_div(count, h) == if count % h == 0 {
            count / h
        } else {
            count / h + 1
        },
        count % h != 0 ==> count / h + 1 <= count,
{
    assert(ceil_div(count, h) == if count % h == 0 {
        count / h
    } else {
        count / h + 1
    }) by (nonlinear_arith)
        requires
            count > 0,
            h > 0,
    ;
    assert(count % h != 0 ==> count / h + 1 <= count) by (nonlinear_arith)
        requires
            count > 0,
            h > 0,
    ;
}

/// A slot's column lies within the columns, and in a partial last column its row lies below
/// the number of neurons left over for that column.
proof fn lemma_grid(count: int, h: int, slot: int)
    requires
        0 <= slot < count,
        h > 0,
    ensures
        slot / h < ceil_div(count, h),
        slot / h == ceil_div(count, h) - 1 && count % h != 0 ==> slot % h < count % h,
{
    assert(slot / h < ceil_div(count, h)) by (nonlinear_arith)
        requires
            0 <= slot < count,
            h > 0,
    ;
    assert(slot / h == ceil_div(count, h) - 1 && count % h != 0 ==> slot % h < count % h) by (
    nonlinear_arith)
        requires
            0 <= slot < count,
            h > 0,
    ;
}

/// The three groups a genome is drawn as: its sensory nodes, its hidden nodes (those after the
/// action nodes, none where the node count falls short of them) and its action nodes, each
/// with columns at most `max_height` high.
pub fn flow_groups<C: Connection, G: Genome<C>>(genome: &G, max_height: usize) -> (r: (
    NeuronGroup,
    NeuronGroup,
    NeuronGroup,
))
    requires
        genome.spec_sensory() + genome.spec_action() <= usize::MAX,
    ensures
        r.0.count == genome.spec_sensory() && r.0.max_height == max_height,
        r.1.count == (if genome.spec_node_count() >= genome.spec_sensory() + genome.spec_action() {
            genome.spec_node_count() - genome.spec_sensory() - genome.spec_action()
        } else {
            0
        }) && r.1.max_height == max_height,
        r.2.count == genome.spec_action() && r.2.max_height == max_height,
{
    let sensory = genome.sensory();
    let action = genome.action();
    let hidden_count = genome.node_count().saturating_sub(action.end);
    (
        NeuronGroup::new(sensory.end - sensory.start, max_height),
        NeuronGroup::new(hidden_count, max_height),
        NeuronGroup::new(action.end - action.start, max_height),
    )
}

} // verus!
