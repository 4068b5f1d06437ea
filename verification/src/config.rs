//! Optimization-run settings that are not numeric tuning knobs: defaults,
//! objectives and output options.
use vstd::prelude::*;

verus! {

/// The initial design used when none is configured.
pub fn default_initial_design() -> (s: String)
    ensures
        s@ == "latin_hypercube"@,
{
    proof {
        reveal_strlit("latin_hypercube");
    }
    String::from_str("latin_hypercube")
}

/// The number of initial design points used when none is configured.
pub fn default_initial_points() -> (n: u64)
    ensures
        n == 10,
{
    10
}

/// The kernel used when none is configured.
pub fn default_kernel() -> (s: String)
    ensures
        s@ == "matern52"@,
{
    proof {
        reveal_strlit("matern52");
    }
    String::from_str("matern52")
}

/// The acquisition function used when none is configured.
pub fn default_acquisition() -> (s: String)
    ensures
        s@ == "ei"@,
{
    proof {
        reveal_strlit("ei");
    }
    String::from_str("ei")
}

/// The output directory of an optimization run when none is configured.
pub fn default_opt_directory() -> (s: String)
    ensures
        s@ == "results/optimization/"@,
{
    proof {
        reveal_strlit("results/optimization/");
    }
    String::from_str("results/optimization/")
}

/// Whether an objective is to be made large or small.
#[derive(Debug, Clone, Copy, PartialEq, Eq, Structural)]
pub enum Direction {
    Maximize,
    Minimize,
}

impl Direction {
    /// `true` for `Maximize`: the flag that dominance and scalarization
    /// take.
    pub fn is_maximize(&self) -> (b: bool)
        ensures
            b == (*self == Direction::Maximize),
    {
        match self {
            Direction::Maximize => true,
            Direction::Minimize => false,
        }
    }
}

/// One metric to optimize, and in which direction.
#[derive(Debug, Clone)]
pub struct ObjectiveSpec {
    pub metric: String,
    pub direction: Direction,
}

/// The maximize flags of `objectives`, in order.
pub fn directions_of(objectives: &[ObjectiveSpec]) -> (dirs: Vec<bool>)
    ensures
        dirs@.len() == objectives@.len(),
        forall|i: int|
            0 <= i < dirs@.len() ==> dirs@[i] == ((#[trigger] objectives@[i]).direction
                == Direction::Maximize),
{
    let mut dirs: Vec<bool> = Vec::new();
    let mut i: usize = 0;
    while i < objectives.len()
        invariant
            i <= objectives@.len(),
            dirs@.len() == i,
            forall|k: int|
                0 <= k < i ==> dirs@[k] == ((#[trigger] objectives@[k]).direction
                    == Direction::Maximize),
        decreases objectives@.len() - i,
    {
        dirs.push(objectives[i].direction.is_maximize());
        i = i + 1;
    }
    dirs
}

/// Where and how an optimization run writes its output.
#[derive(Debug, Clone)]
pub struct OptOutputSpec {
    pub directory: String,
    pub report: bool,
    pub checkpoint: bool,
    pub checkpoint_interval: Option<u64>,
}

impl Default for OptOutputSpec {
    /// Every field at its type's default: an empty directory, no report, no
    /// checkpoints.
    fn default() -> (s: OptOutputSpec)
        ensures
            s.directory@ == Seq::<char>::empty(),
            !s.report,
            !s.checkpoint,
            s.checkpoint_interval == None::<u64>,
    {
        OptOutputSpec {
            directory: String::new(),
            report: false,
            checkpoint: false,
            checkpoint_interval: None,
        }
    }
}

impl OptOutputSpec {
    /// Whether the trials are written out after trial `trial_idx`: only
    /// with checkpoints on, and then at the first trial and at every
    /// multiple of the interval (every trial without one).
    pub fn should_checkpoint(&self, trial_idx: u64) -> (b: bool)
        requires
            !(self.checkpoint && self.checkpoint_interval == Some(0u64)),
        ensures
            b == (self.checkpoint && match self.checkpoint_interval {
                Some(interval) => trial_idx % interval == 0 || trial_idx == 0,
                None => true,
            }),
    {
        if !self.checkpoint {
            return false;
        }
        match self.checkpoint_interval {
            Some(interval) => trial_idx % interval == 0 || trial_idx == 0,
            None => true,
        }
    }
}

/// How a metric's values are aggregated across a study.
#[derive(Debug, Clone, Copy, PartialEq, Eq, Structural)]
pub enum AggregationStrategy {
    /// Incremental: no retained observations.
    Incremental,
    /// Full: retain all observations (required for certain statistics).
    Full,
}

/// Counts observations incrementally.
#[derive(Debug, Clone, Copy, Default)]
pub struct CountAggregator {
    count: u64,
}

impl View for CountAggregator {
    type V = nat;

    closed spec fn view(&self) -> nat {
        self.count as nat
    }
}

impl CountAggregator {
    /// A counter that has seen nothing.
    pub fn new() -> (c: CountAggregator)
        ensures
            c@ == 0,
    {
        CountAggregator { count: 0 }
    }

    /// Counts one more observation (its value does not matter).
    pub fn update(&mut self)
        requires
            old(self)@ < u64::MAX,
        ensures
            final(self)@ == old(self)@ + 1,
    {
        self.count = self.count + 1;
    }

    /// The number of observations counted.
    pub fn result(&self) -> (n: u64)
        ensures
            n == self@,
    {
        self.count
    }

    /// Adds the observations counted by `other`.
    pub fn merge(&mut self, other: &CountAggregator)
        requires
            old(self)@ + other@ <= u64::MAX,
        ensures
            final(self)@ == old(self)@ + other@,
    {
        self.count = self.count + other.count;
    }
}

/// The shape of a search-space parameter: a continuous range, or a set of
/// categorical levels.
#[derive(Debug, Clone, Copy, PartialEq, Eq, Structural)]
pub enum ParameterShape {
    Float,
    Categorical { levels: usize },
}

impl ParameterShape {
    /// Whether the parameter is continuous.
    pub fn is_float(&self) -> (b: bool)
        ensures
            b == (*self is Float),
    {
        match self {
            ParameterShape::Float => true,
            ParameterShape::Categorical { .. } => false,
        }
    }

    /// Whether the parameter is categorical.
    pub fn is_categorical(&self) -> (b: bool)
        ensures
            b == (*self is Categorical),
    {
        match self {
            ParameterShape::Float => false,
            ParameterShape::Categorical { .. } => true,
        }
    }

    /// The number of levels of a categorical parameter; 1 for a continuous
    /// one.
    pub fn n_categories(&self) -> (n: usize)
        ensures
            n == match *self {
                ParameterShape::Float => 1,
                ParameterShape::Categorical { levels } => levels,
            },
    {
        match self {
            ParameterShape::Float => 1,
            ParameterShape::Categorical { levels } => *levels,
        }
    }
}

/// The positions of the continuous parameters among `shapes`.
pub open spec fn float_positions(shapes: Seq<ParameterShape>) -> Seq<usize>
    decreases shapes.len(),
{
    if shapes.len() == 0 {
        Seq::empty()
    } else {
        float_positions(shapes.drop_last()) + if shapes.last() is Float {
            seq![(shapes.len() - 1) as usize]
        } else {
            Seq::empty()
        }
    }
}

/// The positions of the categorical parameters among `shapes`.
pub open spec fn categorical_positions(shapes: Seq<ParameterShape>) -> Seq<usize>
    decreases shapes.len(),
{
    if shapes.len() == 0 {
        Seq::empty()
    } else {
        categorical_positions(shapes.drop_last()) + if shapes.last() is Categorical {
            seq![(shapes.len() - 1) as usize]
        } else {
            Seq::empty()
        }
    }
}

/// The level counts of the categorical parameters among `shapes`.
pub open spec fn categorical_levels(shapes: Seq<ParameterShape>) -> Seq<usize>
    decreases shapes.len(),
{
    if shapes.len() == 0 {
        Seq::empty()
    } else {
        categorical_levels(shapes.drop_last()) + match shapes.last() {
            ParameterShape::Categorical { levels } => seq![levels],
            ParameterShape::Float => Seq::empty(),
        }
    }
}

/// Where the continuous and the categorical parameters sit.
#[derive(Debug, Clone)]
pub struct ParamIndices {
    pub cont: Vec<usize>,
    pub cat: Vec<usize>,
    pub cat_n_levels: Vec<usize>,
}

/// The positions of the continuous parameters, those of the categorical
/// ones, and the categorical level counts, each in parameter order.
pub fn classify_parameters(shapes: &[ParameterShape]) -> (res: ParamIndices)
    ensures
        res.cont@ == float_positions(shapes@),
        res.cat@ == categorical_positions(shapes@),
        res.cat_n_levels@ == categorical_levels(shapes@),
{
    let mut cont: Vec<usize> = Vec::new();
    let mut cat: Vec<usize> = Vec::new();
    let mut cat_n_levels: Vec<usize> = Vec::new();
    let mut i: usize = 0;
    while i < shapes.len()
        invariant
            i <= shapes@.len(),
            cont@ == float_positions(shapes@.subrange(0, i as int)),
            cat@ == categorical_positions(shapes@.subrange(0, i as int)),
            cat_n_levels@ == categorical_levels(shapes@.subrange(0, i as int)),
        decreases shapes@.len() - i,
    {
        proof {
            assert(shapes@.subrange(0, i as int + 1).drop_last() =~= shapes@.subrange(0, i as int));
            assert(shapes@.subrange(0, i as int + 1).last() == shapes@[i as int]);
        }
        match shapes[i] {
            ParameterShape::Float => {
                cont.push(i);
            },
            ParameterShape::Categorical { levels } => {
                cat.push(i);
                cat_n_levels.push(levels);
            },
        }
        i = i + 1;
    }
    assert(shapes@.subrange(0, shapes@.len() as int) =~= shapes@);
    ParamIndices { cont, cat, cat_n_levels }
}

} // verus!
